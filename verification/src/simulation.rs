//! Endpoints driven by hand: a client and a server that exchange datagrams in memory, on a clock
//! that is advanced from event to event.

use std::cmp::Ordering;
use std::collections::VecDeque;
use std::sync::Arc;

use bytes::Bytes;
use vstd::prelude::*;
use vstd::std_specs::cmp::PartialOrdSpec;

use crate::association::internal::{handles_timeout, lemma_timeout_keeps_queues};
use crate::association::timer::is_earliest;
use crate::association::{Association, Event};
use crate::buf::{bytes_content, bytes_mut_from};
use crate::config::{ClientConfig, EndpointConfig, ServerConfig};
use crate::endpoint::{
    answers_event, drew_one, handles, may_handle, AssociationHandle, ConnectError, DatagramEvent, Endpoint,
    Roster, MAX_IDENTIFIERS,
};
use crate::shared::{
    AssociationEvent, AssociationEventInner, AssociationId, EcnCodepoint, EndpointEvent, Payload,
    Side, SocketAddr, Transmit,
};
use crate::time::Instant;

verus! {

/// Whether a value comes before another in the order of their type.
pub open spec fn precedes<T: Ord>(a: T, b: T) -> bool {
    a.partial_cmp_spec(&b) == Some(Ordering::Less)
}

/// The lesser of two values, where an absent one does not count.
pub open spec fn lesser<T: Ord>(x: Option<T>, y: Option<T>) -> Option<T> {
    match (x, y) {
        (Some(a), Some(b)) => if precedes(b, a) {
            Some(b)
        } else {
            Some(a)
        },
        (Some(a), None) => Some(a),
        (None, b) => b,
    }
}

/// The lesser of two values, where an absent one does not count.
pub fn min_opt<T: Ord>(x: Option<T>, y: Option<T>) -> (r: Option<T>)
    ensures
        T::obeys_partial_cmp_spec() ==> r == lesser(x, y),
        r == x || r == y,
        r is None <==> x is None && y is None,
{
    match (x, y) {
        (Some(a), Some(b)) => {
            if b < a {
                Some(b)
            } else {
                Some(a)
            }
        },
        (Some(a), None) => Some(a),
        (None, b) => b,
    }
}

/// Whether a type is ordered: of two values one comes before the other, unless they are the same.
pub open spec fn is_ordered<T: Ord>() -> bool {
    &&& T::obeys_partial_cmp_spec()
    &&& forall|a: T, b: T| #[trigger] precedes(a, b) ==> !precedes(b, a)
    &&& forall|a: T, b: T| #[trigger] precedes(a, b) || precedes(b, a) || a == b
}

/// The lesser of two values that may be absent is one of them and does not come after either; it is
/// absent only where both are, an absent one does not count, and the order of the two does not
/// matter.
pub proof fn law_lesser<T: Ord>(x: Option<T>, y: Option<T>)
    requires
        is_ordered::<T>(),
    ensures
        lesser(x, y) is None <==> x is None && y is None,
        lesser(x, y) == x || lesser(x, y) == y,
        x is Some ==> !precedes(x->0, lesser(x, y)->0),
        y is Some ==> !precedes(y->0, lesser(x, y)->0),
        lesser(x, None) == x,
        lesser(None, y) == y,
        lesser(x, y) == lesser(y, x),
{
    if x is Some && y is Some {
        assert(precedes(x->0, y->0) || precedes(y->0, x->0) || x->0 == y->0);
        assert(precedes(x->0, x->0) ==> !precedes(x->0, x->0));
        assert(precedes(y->0, y->0) ==> !precedes(y->0, y->0));
    } else if x is Some {
        assert(precedes(x->0, x->0) ==> !precedes(x->0, x->0));
    } else if y is Some {
        assert(precedes(y->0, y->0) ==> !precedes(y->0, y->0));
    }
}

/// Times are ordered.
pub proof fn law_times_are_ordered()
    ensures
        is_ordered::<Instant>(),
{
    assert forall|a: Instant, b: Instant| #[trigger] precedes(a, b) || precedes(b, a) || a
        == b by {}
}

/// A datagram on its way: when it arrives, what it says about congestion, and its contents.
pub type Inbound = (Instant, Option<EcnCodepoint>, Bytes);

/// An endpoint with its associations and what is on its way to and from it.
pub struct TestEndpoint {
    pub endpoint: Endpoint,
    pub addr: SocketAddr,
    /// When the association that was looked after last is to be looked after again.
    pub timeout: Option<Instant>,
    pub outbound: VecDeque<Transmit>,
    pub delayed: VecDeque<Transmit>,
    /// Datagrams on their way to the endpoint, in the order of their arrival.
    pub inbound: VecDeque<Inbound>,
    pub accepted: Option<AssociationHandle>,
    /// The associations, in the order in which they came.
    pub connections: Vec<(AssociationHandle, Association)>,
    /// Events for associations: of each association in the order in which they came, and the
    /// associations in the order of the first event.
    pub conn_events: Vec<(AssociationHandle, VecDeque<AssociationEvent>)>,
}

/// Whether the association at `i` is the one with that handle.
pub open spec fn is_connection(
    connections: Seq<(AssociationHandle, Association)>,
    ch: AssociationHandle,
    i: int,
) -> bool {
    0 <= i < connections.len() && connections[i].0 == ch
}

/// Whether there is an association with that handle.
pub open spec fn has_connection(
    connections: Seq<(AssociationHandle, Association)>,
    ch: AssociationHandle,
) -> bool {
    exists|i: int| is_connection(connections, ch, i)
}

/// Whether `after` is a list of associations with one put in: in place of the one with the same
/// handle, or else at the end.
pub open spec fn with_connection(
    before: Seq<(AssociationHandle, Association)>,
    ch: AssociationHandle,
    conn: Association,
    after: Seq<(AssociationHandle, Association)>,
) -> bool {
    if has_connection(before, ch) {
        exists|i: int| #[trigger]
            is_connection(before, ch, i) && after == before.update(i, (ch, conn))
    } else {
        after == before.push((ch, conn))
    }
}

/// Whether the first `k` datagrams, and no more of them in a row, have arrived by `now`.
pub open spec fn arrived(inbound: Seq<Inbound>, now: Instant, k: int) -> bool {
    &&& 0 <= k <= inbound.len()
    &&& forall|i: int| 0 <= i < k ==> (#[trigger] inbound[i]).0.nanos <= now.nanos
    &&& k < inbound.len() ==> inbound[k].0.nanos > now.nanos
}

/// The events that wait for each association.
pub open spec fn event_queues(
    conn_events: Seq<(AssociationHandle, VecDeque<AssociationEvent>)>,
) -> Seq<(AssociationHandle, Seq<AssociationEvent>)> {
    conn_events.map_values(|q: (AssociationHandle, VecDeque<AssociationEvent>)| (q.0, q.1@))
}

/// Whether the queue at `i` is that of the association with that handle.
pub open spec fn is_queue(
    queues: Seq<(AssociationHandle, Seq<AssociationEvent>)>,
    ch: AssociationHandle,
    i: int,
) -> bool {
    0 <= i < queues.len() && queues[i].0 == ch
}

/// Whether `after` are the queues `before` with an event more: behind those of its association, or in
/// a queue of its own at the end where none waited for that association.
pub open spec fn with_event(
    before: Seq<(AssociationHandle, Seq<AssociationEvent>)>,
    ch: AssociationHandle,
    event: AssociationEvent,
    after: Seq<(AssociationHandle, Seq<AssociationEvent>)>,
) -> bool {
    if exists|i: int| is_queue(before, ch, i) {
        exists|i: int| #[trigger]
            is_queue(before, ch, i) && after == before.update(i, (ch, before[i].1.push(event)))
    } else {
        after == before.push((ch, seq![event]))
    }
}

/// The datagrams among some events.
pub open spec fn datagrams_among(events: Seq<AssociationEvent>) -> Seq<Transmit>
    decreases events.len(),
{
    if events.len() == 0 {
        Seq::empty()
    } else {
        match events.last().0 {
            AssociationEventInner::Datagram(transmit) => datagrams_among(events.drop_last()).push(
                transmit,
            ),
            _ => datagrams_among(events.drop_last()),
        }
    }
}

/// The datagrams among the events of each association, association by association.
pub open spec fn datagrams(queues: Seq<(AssociationHandle, Seq<AssociationEvent>)>) -> Seq<Transmit>
    decreases queues.len(),
{
    if queues.len() == 0 {
        Seq::empty()
    } else {
        datagrams(queues.drop_last()) + datagrams_among(queues.last().1)
    }
}

/// Some events, each with the association that it comes from.
pub open spec fn tagged(ch: AssociationHandle, events: Seq<EndpointEvent>) -> Seq<
    (AssociationHandle, EndpointEvent),
> {
    events.map_values(|e: EndpointEvent| (ch, e))
}

/// The events that some associations have for their endpoint.
pub open spec fn pending_events(connections: Seq<(AssociationHandle, Association)>) -> Seq<
    (AssociationHandle, EndpointEvent),
>
    decreases connections.len(),
{
    if connections.len() == 0 {
        Seq::empty()
    } else {
        pending_events(connections.drop_last()) + tagged(
            connections.last().0,
            connections.last().1.endpoint_events@,
        )
    }
}

/// Whether an endpoint can answer those events one after the other, whatever identifiers it draws.
pub open spec fn may_handle_all(
    roster: Roster,
    events: Seq<(AssociationHandle, EndpointEvent)>,
) -> bool
    decreases events.len(),
{
    events.len() == 0 || {
        let (ch, event) = events[0];
        &&& may_handle(roster, ch, event.0)
        &&& forall|after: Roster, r: Option<AssociationEvent>| #[trigger]
            handles(roster, ch, event.0, after, r) ==> may_handle_all(after, events.skip(1))
    }
}

/// Whether `states` leads an endpoint through those events one after the other.
pub open spec fn answers_all(
    states: Seq<Endpoint>,
    events: Seq<(AssociationHandle, EndpointEvent)>,
) -> bool {
    &&& states.len() == events.len() + 1
    &&& forall|i: int|
        0 <= i < events.len() ==> answers(
            #[trigger] states[i],
            events[i].0,
            events[i].1,
            states[i + 1],
        )
}

/// Whether `after` is what an event of an association makes of the endpoint `before`, whatever it
/// answers.
#[verifier::opaque]
pub open spec fn answers(
    before: Endpoint,
    ch: AssociationHandle,
    event: EndpointEvent,
    after: Endpoint,
) -> bool {
    exists|r: Option<AssociationEvent>| #[trigger] answers_event(before, ch, event.0, after, r)
}

/// Whether `after` is the endpoint `before` once the datagrams that have arrived were handed to it.
/// None of them finds an association.
pub open spec fn received(before: TestEndpoint, now: Instant, after: TestEndpoint) -> bool {
    &&& after == (TestEndpoint { inbound: after.inbound, ..before })
    &&& exists|k: int| #[trigger]
        arrived(before.inbound@, now, k) && after.inbound@ == before.inbound@.skip(k)
}

/// Whether `after` is the endpoint `before` once its own transmissions were put to those that go
/// out.
pub open spec fn collected(before: TestEndpoint, after: TestEndpoint) -> bool {
    &&& after == (TestEndpoint {
        endpoint: Endpoint { transmits: after.endpoint.transmits, ..before.endpoint },
        outbound: after.outbound,
        ..before
    })
    &&& after.endpoint.transmits@.len() == 0
    &&& after.outbound@ == before.outbound@ + before.endpoint.transmits@
}

/// Whether a time has come.
pub open spec fn is_due(t: Option<Instant>, now: Instant) -> bool {
    t matches Some(t) && t.nanos <= now.nanos
}

/// Whether `after` is the endpoint `before` once the association at `i` was driven: its timers are
/// looked after where that is due, it gets the datagrams that wait, and its transmissions go out.
#[verifier::opaque]
pub open spec fn drove(before: TestEndpoint, i: int, now: Instant, after: TestEndpoint) -> bool {
    let (ch, conn) = before.connections@[i];
    let driven = after.connections@[i].1;
    &&& after == (TestEndpoint {
        timeout: after.timeout,
        outbound: after.outbound,
        connections: after.connections,
        conn_events: after.conn_events,
        ..before
    })
    &&& after.connections@ == before.connections@.update(i, (ch, driven))
    &&& after.conn_events@.len() == 0
    &&& after.outbound@ == before.outbound@ + conn.transmits@
    &&& is_earliest(driven.timers@, after.timeout)
    &&& drove_association(
        conn,
        is_due(before.timeout, now),
        now,
        datagrams(event_queues(before.conn_events@)),
        driven,
    )
}

/// Whether `after` is the association `before` once it was driven: with its timers looked after or
/// not, with some more datagrams, and with nothing left that was ready to be taken.
pub open spec fn drove_association(
    before: Association,
    due: bool,
    now: Instant,
    inbound: Seq<Transmit>,
    after: Association,
) -> bool {
    exists|mid: Association|
        (if due {
            handles_timeout(before, now, mid)
        } else {
            mid == before
        }) && #[trigger] took_and_gave(mid, inbound, after)
}

/// Whether `after` is the association `before` with some more datagrams, and with nothing left that
/// was ready to be taken by the endpoint.
pub open spec fn took_and_gave(
    before: Association,
    inbound: Seq<Transmit>,
    after: Association,
) -> bool {
    &&& after == (Association {
        inbound: after.inbound,
        transmits: after.transmits,
        endpoint_events: after.endpoint_events,
        ..before
    })
    &&& after.inbound@ == before.inbound@ + inbound
    &&& after.transmits@.len() == 0
    &&& after.endpoint_events@.len() == 0
}

impl TestEndpoint {
    /// Whether the endpoint and its associations are in order, and no handle occurs twice among them
    /// or among the queues of events.
    pub open spec fn wf(&self) -> bool {
        &&& self.endpoint.wf()
        &&& forall|i: int|
            0 <= i < self.connections@.len() ==> (#[trigger] self.connections@[i]).1.wf()
        &&& forall|i: int, j: int|
            0 <= i < j < self.connections@.len() ==> (#[trigger] self.connections@[i]).0 != (
            #[trigger] self.connections@[j]).0
        &&& forall|i: int, j: int|
            0 <= i < j < self.conn_events@.len() ==> (#[trigger] self.conn_events@[i]).0 != (
            #[trigger] self.conn_events@[j]).0
    }

    /// Whether the endpoint can answer what its associations ask for.
    pub open spec fn can_answer(&self) -> bool {
        may_handle_all(self.endpoint.roster(), pending_events(self.connections@))
    }

    /// Whether the endpoint has no associations, nothing is on its way to or from it, and nothing is
    /// due.
    pub open spec fn is_quiet(&self) -> bool {
        &&& self.timeout is None
        &&& self.outbound@.len() == 0
        &&& self.delayed@.len() == 0
        &&& self.inbound@.len() == 0
        &&& self.accepted is None
        &&& self.connections@.len() == 0
        &&& self.conn_events@.len() == 0
    }

    /// An endpoint at an address, with nothing on its way.
    pub fn new(endpoint: Endpoint, addr: SocketAddr) -> (r: Self)
        requires
            endpoint.wf(),
        ensures
            r.wf(),
            r.endpoint == endpoint,
            r.addr == addr,
            r.is_quiet(),
    {
        TestEndpoint {
            endpoint,
            addr,
            timeout: None,
            outbound: VecDeque::new(),
            delayed: VecDeque::new(),
            inbound: VecDeque::new(),
            accepted: None,
            connections: Vec::new(),
            conn_events: Vec::new(),
        }
    }

    /// The place of the association with that handle.
    fn find_connection(&self, ch: AssociationHandle) -> (r: Option<usize>)
        ensures
            match r {
                Some(i) => is_connection(self.connections@, ch, i as int),
                None => !has_connection(self.connections@, ch),
            },
    {
        let mut i: usize = 0;
        while i < self.connections.len()
            invariant
                i <= self.connections@.len(),
                forall|j: int| 0 <= j < i ==> (#[trigger] self.connections@[j]).0 != ch,
            decreases self.connections@.len() - i,
        {
            if self.connections[i].0 == ch {
                return Some(i);
            }
            i += 1;
        }
        None
    }

    /// Keeps an association under its handle.
    pub fn insert_connection(&mut self, ch: AssociationHandle, conn: Association)
        requires
            old(self).wf(),
            conn.wf(),
        ensures
            final(self).wf(),
            *final(self) == (TestEndpoint { connections: final(self).connections, ..*old(self) }),
            with_connection(old(self).connections@, ch, conn, final(self).connections@),
    {
        match self.find_connection(ch) {
            Some(i) => {
                assert(is_connection(self.connections@, ch, i as int));
                self.connections.set(i, (ch, conn));
            },
            None => {
                proof {
                    assert forall|i: int| 0 <= i < self.connections@.len() implies (
                    #[trigger] self.connections@[i]).0 != ch by {
                        if self.connections@[i].0 == ch {
                            assert(is_connection(self.connections@, ch, i));
                        }
                    }
                }
                self.connections.push((ch, conn));
            },
        }
    }

    /// Acts on what a datagram led to: a new association is kept and counts as accepted, and an
    /// event waits for its association.
    pub fn route(&mut self, ch: AssociationHandle, event: DatagramEvent)
        requires
            old(self).wf(),
            event matches DatagramEvent::NewAssociation(conn) ==> conn.wf(),
        ensures
            final(self).wf(),
            match event {
                DatagramEvent::NewAssociation(conn) => {
                    &&& *final(self) == (TestEndpoint {
                        connections: final(self).connections,
                        accepted: Some(ch),
                        ..*old(self)
                    })
                    &&& with_connection(
                        old(self).connections@,
                        ch,
                        conn,
                        final(self).connections@,
                    )
                },
                DatagramEvent::AssociationEvent(event) => {
                    &&& *final(self) == (TestEndpoint {
                        conn_events: final(self).conn_events,
                        ..*old(self)
                    })
                    &&& with_event(
                        event_queues(old(self).conn_events@),
                        ch,
                        event,
                        event_queues(final(self).conn_events@),
                    )
                },
            },
    {
        match event {
            DatagramEvent::NewAssociation(conn) => {
                self.insert_connection(ch, conn);
                self.accepted = Some(ch);
            },
            DatagramEvent::AssociationEvent(event) => {
                self.queue_event(ch, event);
            },
        }
    }

    /// Lets an event wait for its association.
    fn queue_event(&mut self, ch: AssociationHandle, event: AssociationEvent)
        requires
            old(self).wf(),
        ensures
            final(self).wf(),
            *final(self) == (TestEndpoint { conn_events: final(self).conn_events, ..*old(self) }),
            with_event(
                event_queues(old(self).conn_events@),
                ch,
                event,
                event_queues(final(self).conn_events@),
            ),
    {
        let ghost before = event_queues(self.conn_events@);
        let mut i: usize = 0;
        while i < self.conn_events.len()
            invariant
                i <= self.conn_events@.len(),
                *self == *old(self),
                self.wf(),
                before == event_queues(self.conn_events@),
                forall|j: int| 0 <= j < i ==> (#[trigger] self.conn_events@[j]).0 != ch,
            decreases self.conn_events@.len() - i,
        {
            if self.conn_events[i].0 == ch {
                let (_, events) = self.conn_events.remove(i);
                let mut events: VecDeque<AssociationEvent> = events;
                events.push_back(event);
                self.conn_events.insert(i, (ch, events));
                proof {
                    let was = old(self).conn_events@;
                    assert(self.conn_events@ =~= was.update(i as int, (ch, events)));
                    assert(is_queue(before, ch, i as int));
                    assert(event_queues(self.conn_events@) =~= before.update(
                        i as int,
                        (ch, before[i as int].1.push(event)),
                    ));
                }
                return;
            }
            i += 1;
        }
        proof {
            assert forall|j: int| !is_queue(before, ch, j) by {
                if is_queue(before, ch, j) {
                    assert(self.conn_events@[j].0 == ch);
                }
            }
        }
        let mut events: VecDeque<AssociationEvent> = VecDeque::new();
        events.push_back(event);
        self.conn_events.push((ch, events));
        proof {
            assert(events@ =~= seq![event]);
            assert(event_queues(self.conn_events@) =~= before.push((ch, seq![event])));
        }
    }

    /// Hands the datagrams that have arrived to the endpoint.
    fn receive(&mut self, now: Instant, remote: SocketAddr)
        requires
            old(self).wf(),
        ensures
            final(self).wf(),
            received(*old(self), now, *final(self)),
    {
        let ghost all = self.inbound@;
        let ghost mut k: int = 0;
        assert(all.skip(0) =~= all);
        loop
            invariant
                self.wf(),
                *self == (TestEndpoint { inbound: self.inbound, ..*old(self) }),
                all == old(self).inbound@,
                0 <= k <= all.len(),
                self.inbound@ == all.skip(k),
                forall|i: int| 0 <= i < k ==> (#[trigger] all[i]).0.nanos <= now.nanos,
            decreases self.inbound@.len(),
        {
            let due: bool = self.inbound.len() > 0 && self.inbound[0].0.nanos <= now.nanos;
            if !due {
                assert(arrived(all, now, k));
                return;
            }
            if let Some((recv_time, ecn, packet)) = self.inbound.pop_front() {
                if let Some((ch, event)) = self.endpoint.handle(
                    recv_time,
                    remote,
                    None,
                    ecn,
                    bytes_mut_from(packet),
                ) {
                    self.route(ch, event);
                }
                assert(self.inbound@ =~= all.skip(k + 1));
            }
            proof {
                k = k + 1;
            }
        }
    }

    /// Puts the transmissions of the endpoint itself to those that go out.
    fn collect_transmits(&mut self)
        requires
            old(self).wf(),
        ensures
            final(self).wf(),
            collected(*old(self), *final(self)),
    {
        let ghost all = self.outbound@ + self.endpoint.transmits@;
        loop
            invariant
                self.wf(),
                *self == (TestEndpoint {
                    endpoint: Endpoint { transmits: self.endpoint.transmits, ..old(self).endpoint },
                    outbound: self.outbound,
                    ..*old(self)
                }),
                all == old(self).outbound@ + old(self).endpoint.transmits@,
                self.outbound@ + self.endpoint.transmits@ == all,
            decreases self.endpoint.transmits@.len(),
        {
            let ghost out = self.outbound@;
            let ghost left = self.endpoint.transmits@;
            match self.endpoint.poll_transmit() {
                Some(x) => {
                    self.outbound.push_back(x);
                    assert(self.outbound@ + self.endpoint.transmits@ =~= out + left);
                },
                None => {
                    assert(self.outbound@ =~= out + left);
                    return;
                },
            }
        }
    }
}

/// Hands the datagrams among some events to an association. The other events are dropped.
fn hand_queue(conn: &mut Association, events: VecDeque<AssociationEvent>)
    requires
        old(conn).wf(),
    ensures
        final(conn).wf(),
        *final(conn) == (Association { inbound: final(conn).inbound, ..*old(conn) }),
        final(conn).inbound@ == old(conn).inbound@ + datagrams_among(events@),
{
    let ghost all = events@;
    let ghost mut k: int = 0;
    let mut rest: VecDeque<AssociationEvent> = events;
    assert(all.take(0) =~= Seq::<AssociationEvent>::empty());
    assert(all.skip(0) =~= all);
    assert(conn.inbound@ =~= old(conn).inbound@ + datagrams_among(all.take(0)));
    loop
        invariant
            conn.wf(),
            *conn == (Association { inbound: conn.inbound, ..*old(conn) }),
            all == events@,
            0 <= k <= all.len(),
            rest@ == all.skip(k),
            conn.inbound@ == old(conn).inbound@ + datagrams_among(all.take(k)),
        decreases rest@.len(),
    {
        match rest.pop_front() {
            Some(event) => {
                proof {
                    assert(all.take(k + 1).drop_last() =~= all.take(k));
                    assert(all.take(k + 1).last() == event);
                    assert(rest@ =~= all.skip(k + 1));
                }
                if let AssociationEventInner::Datagram(transmit) = event.0 {
                    conn.handle_transmit(transmit);
                }
                proof {
                    assert(conn.inbound@ =~= old(conn).inbound@ + datagrams_among(
                        all.take(k + 1),
                    ));
                    k = k + 1;
                }
            },
            None => {
                assert(all.take(k) =~= all);
                return;
            },
        }
    }
}

/// Hands the datagrams among the events of each association to an association, queue by queue. The
/// other events are dropped.
fn hand_datagrams(
    conn: &mut Association,
    queues: &mut Vec<(AssociationHandle, VecDeque<AssociationEvent>)>,
)
    requires
        old(conn).wf(),
    ensures
        final(conn).wf(),
        *final(conn) == (Association { inbound: final(conn).inbound, ..*old(conn) }),
        final(conn).inbound@ == old(conn).inbound@ + datagrams(event_queues(old(queues)@)),
        final(queues)@.len() == 0,
{
    let ghost all = queues@;
    let ghost views = event_queues(all);
    let ghost mut k: int = 0;
    assert(views.take(0) =~= Seq::<(AssociationHandle, Seq<AssociationEvent>)>::empty());
    assert(all.skip(0) =~= all);
    assert(conn.inbound@ =~= old(conn).inbound@ + datagrams(views.take(0)));
    while queues.len() > 0
        invariant
            conn.wf(),
            *conn == (Association { inbound: conn.inbound, ..*old(conn) }),
            all == old(queues)@,
            views == event_queues(all),
            0 <= k <= all.len(),
            queues@ == all.skip(k),
            conn.inbound@ == old(conn).inbound@ + datagrams(views.take(k)),
        decreases queues@.len(),
    {
        let (_, events) = queues.remove(0);
        proof {
            assert(views.take(k + 1).drop_last() =~= views.take(k));
            assert(views.take(k + 1).last().1 == events@);
            assert(queues@ =~= all.skip(k + 1));
        }
        hand_queue(conn, events);
        proof {
            assert(conn.inbound@ =~= old(conn).inbound@ + datagrams(views.take(k + 1)));
            k = k + 1;
        }
    }
    assert(views.take(k) =~= views);
}

/// Takes the events that an association has for its endpoint.
fn take_endpoint_events(
    conn: &mut Association,
    ch: AssociationHandle,
    endpoint_events: &mut Vec<(AssociationHandle, EndpointEvent)>,
)
    requires
        old(conn).wf(),
    ensures
        final(conn).wf(),
        *final(conn) == (Association {
            endpoint_events: final(conn).endpoint_events,
            ..*old(conn)
        }),
        final(conn).endpoint_events@.len() == 0,
        final(endpoint_events)@ == old(endpoint_events)@ + tagged(ch, old(conn).endpoint_events@),
{
    let ghost want = endpoint_events@ + tagged(ch, conn.endpoint_events@);
    loop
        invariant
            conn.wf(),
            *conn == (Association { endpoint_events: conn.endpoint_events, ..*old(conn) }),
            want == old(endpoint_events)@ + tagged(ch, old(conn).endpoint_events@),
            endpoint_events@ + tagged(ch, conn.endpoint_events@) == want,
        decreases conn.endpoint_events@.len(),
    {
        let ghost had = endpoint_events@;
        let ghost left = conn.endpoint_events@;
        match conn.poll_endpoint_event() {
            Some(event) => {
                endpoint_events.push((ch, event));
                assert(endpoint_events@ + tagged(ch, conn.endpoint_events@) =~= had + tagged(
                    ch,
                    left,
                ));
            },
            None => {
                assert(endpoint_events@ =~= had + tagged(ch, left));
                return;
            },
        }
    }
}

/// Takes the transmissions of an association.
fn take_transmits(conn: &mut Association, now: Instant, outbound: &mut VecDeque<Transmit>)
    requires
        old(conn).wf(),
    ensures
        final(conn).wf(),
        *final(conn) == (Association { transmits: final(conn).transmits, ..*old(conn) }),
        final(conn).transmits@.len() == 0,
        final(outbound)@ == old(outbound)@ + old(conn).transmits@,
{
    loop
        invariant
            conn.wf(),
            *conn == (Association { transmits: conn.transmits, ..*old(conn) }),
            outbound@ + conn.transmits@ == old(outbound)@ + old(conn).transmits@,
        decreases conn.transmits@.len(),
    {
        let ghost had = outbound@;
        let ghost left = conn.transmits@;
        match conn.poll_transmit(now) {
            Some(x) => {
                outbound.push_back(x);
                assert(outbound@ + conn.transmits@ =~= had + left);
            },
            None => {
                assert(outbound@ =~= had + left);
                return;
            },
        }
    }
}

impl TestEndpoint {
    /// Drives the association at `i`: looks after its timers where that is due, hands it the
    /// datagrams that wait, and takes its events and transmissions.
    fn drive_connection(
        &mut self,
        i: usize,
        now: Instant,
        endpoint_events: &mut Vec<(AssociationHandle, EndpointEvent)>,
    )
        requires
            old(self).wf(),
            i < old(self).connections@.len(),
        ensures
            final(self).wf(),
            drove(*old(self), i as int, now, *final(self)),
            final(self).endpoint == old(self).endpoint,
            final(self).connections@.len() == old(self).connections@.len(),
            forall|j: int|
                0 <= j < old(self).connections@.len() && j != i
                    ==> (#[trigger] final(self).connections@[j]) == old(self).connections@[j],
            final(endpoint_events)@ == old(endpoint_events)@ + tagged(
                old(self).connections@[i as int].0,
                old(self).connections@[i as int].1.endpoint_events@,
            ),
    {
        let (ch, conn) = self.connections.remove(i);
        let mut conn: Association = conn;
        let ghost first = conn;
        let due: bool = match self.timeout {
            Some(t) => t.nanos <= now.nanos,
            None => false,
        };
        if due {
            conn.handle_timeout(now);
            proof {
                lemma_timeout_keeps_queues(first, now, conn);
            }
        }
        let ghost mid = conn;
        hand_datagrams(&mut conn, &mut self.conn_events);
        take_endpoint_events(&mut conn, ch, endpoint_events);
        take_transmits(&mut conn, now, &mut self.outbound);
        self.timeout = conn.poll_timeout();
        proof {
            let coming = datagrams(event_queues(old(self).conn_events@));
            assert(took_and_gave(mid, coming, conn));
            assert(drove_association(first, due, now, coming, conn));
        }
        let ghost driven = conn;
        self.connections.insert(i, (ch, conn));
        proof {
            reveal(drove);
            assert(self.connections@ =~= old(self).connections@.update(i as int, (ch, driven)));
            assert forall|j: int, k: int| 0 <= j < k < self.connections@.len() implies (
            #[trigger] self.connections@[j]).0 != (#[trigger] self.connections@[k]).0 by {
                assert(old(self).connections@[j].0 != old(self).connections@[k].0);
            }
            assert forall|j: int| 0 <= j < self.connections@.len() implies (
            #[trigger] self.connections@[j]).1.wf() by {
                assert(old(self).connections@[j].1.wf());
            }
        }
    }

    /// Lets the endpoint answer an event of one of its associations. The answer is dropped.
    fn answer_event(&mut self, ch: AssociationHandle, event: EndpointEvent)
        requires
            old(self).wf(),
            may_handle(old(self).endpoint.roster(), ch, event.0),
        ensures
            final(self).wf(),
            *final(self) == (TestEndpoint { endpoint: final(self).endpoint, ..*old(self) }),
            answers(old(self).endpoint, ch, event, final(self).endpoint),
            exists|r: Option<AssociationEvent>| #[trigger]
                handles(
                    old(self).endpoint.roster(),
                    ch,
                    event.0,
                    final(self).endpoint.roster(),
                    r,
                ),
    {
        let r = self.endpoint.handle_event(ch, event);
        proof {
            reveal(answers);
            assert(answers_event(old(self).endpoint, ch, event.0, self.endpoint, r));
            assert(handles(
                old(self).endpoint.roster(),
                ch,
                event.0,
                self.endpoint.roster(),
                r,
            ));
        }
    }

    /// Lets the endpoint answer the events of its associations. The answers are dropped.
    fn answer_events(&mut self, endpoint_events: Vec<(AssociationHandle, EndpointEvent)>)
        requires
            old(self).wf(),
            may_handle_all(old(self).endpoint.roster(), endpoint_events@),
        ensures
            final(self).wf(),
            *final(self) == (TestEndpoint { endpoint: final(self).endpoint, ..*old(self) }),
            exists|states: Seq<Endpoint>| #[trigger]
                answers_all(states, endpoint_events@) && states.first() == old(self).endpoint
                    && states.last() == final(self).endpoint,
    {
        let ghost events = endpoint_events@;
        let ghost mut states: Seq<Endpoint> = seq![self.endpoint];
        let mut i: usize = 0;
        assert(events.skip(0) =~= events);
        while i < endpoint_events.len()
            invariant
                self.wf(),
                *self == (TestEndpoint { endpoint: self.endpoint, ..*old(self) }),
                i <= events.len(),
                events == endpoint_events@,
                may_handle_all(self.endpoint.roster(), events.skip(i as int)),
                answers_all(states, events.take(i as int)),
                states.first() == old(self).endpoint,
                states.last() == self.endpoint,
            decreases events.len() - i,
        {
            let (ch, event) = endpoint_events[i];
            let ghost before = self.endpoint;
            let ghost led = states;
            assert(events.skip(i as int)[0] == events[i as int]);
            self.answer_event(ch, event);
            proof {
                assert(events.skip(i as int).skip(1) =~= events.skip(i + 1));
                states = led.push(self.endpoint);
                let done = events.take(i + 1);
                assert forall|j: int| 0 <= j < done.len() implies answers(
                    #[trigger] states[j],
                    done[j].0,
                    done[j].1,
                    states[j + 1],
                ) by {
                    if j < i {
                        assert(events.take(i as int)[j] == done[j]);
                        assert(states[j] == led[j] && states[j + 1] == led[j + 1]);
                        assert(answers(
                            led[j],
                            events.take(i as int)[j].0,
                            events.take(i as int)[j].1,
                            led[j + 1],
                        ));
                    } else {
                        assert(states[j] == before);
                    }
                }
            }
            i += 1;
        }
        assert(events.take(events.len() as int) =~= events);
    }

    /// Drives the endpoint: it takes what has arrived, each of its associations is driven in turn,
    /// and their events are answered.
    pub fn drive(&mut self, now: Instant, remote: SocketAddr)
        requires
            old(self).wf(),
            old(self).can_answer(),
        ensures
            final(self).wf(),
            drives(*old(self), now, *final(self)),
    {
        let ghost start = *self;
        self.receive(now, remote);
        let ghost taken = *self;
        self.collect_transmits();
        let ghost ready = *self;
        let mut endpoint_events: Vec<(AssociationHandle, EndpointEvent)> = Vec::new();
        let ghost mut steps: Seq<TestEndpoint> = seq![*self];
        let ghost conns = ready.connections@;
        let mut i: usize = 0;
        assert(conns.take(0) =~= Seq::<(AssociationHandle, Association)>::empty());
        while i < self.connections.len()
            invariant
                self.wf(),
                i <= self.connections@.len() == conns.len(),
                self.endpoint == ready.endpoint,
                conns == ready.connections@,
                forall|j: int|
                    i <= j < conns.len() ==> #[trigger] self.connections@[j] == conns[j],
                endpoint_events@ == pending_events(conns.take(i as int)),
                steps.len() == i + 1,
                steps.first() == ready,
                steps.last() == *self,
                forall|j: int|
                    0 <= j < i ==> drove(#[trigger] steps[j], j, now, steps[j + 1]),
            decreases conns.len() - i,
        {
            let ghost before = *self;
            let ghost led = steps;
            proof {
                assert(conns.take(i + 1).drop_last() =~= conns.take(i as int));
                assert(conns.take(i + 1).last() == conns[i as int]);
                assert(self.connections@[i as int] == conns[i as int]);
            }
            self.drive_connection(i, now, &mut endpoint_events);
            proof {
                steps = led.push(*self);
                assert forall|j: int| 0 <= j < i + 1 implies drove(
                    #[trigger] steps[j],
                    j,
                    now,
                    steps[j + 1],
                ) by {
                    if j < i {
                        assert(steps[j] == led[j] && steps[j + 1] == led[j + 1]);
                    } else {
                        assert(steps[j] == before);
                    }
                }
                assert forall|j: int| i + 1 <= j < conns.len() implies #[trigger]
                    self.connections@[j] == conns[j] by {
                    assert(before.connections@[j] == conns[j]);
                }
            }
            i += 1;
        }
        let ghost driven = *self;
        proof {
            assert(conns.take(conns.len() as int) =~= conns);
            assert(drove_each(steps, now));
            assert(ready.endpoint.roster() == start.endpoint.roster());
        }
        self.answer_events(endpoint_events);
        proof {
            assert(received(start, now, taken));
            assert(collected(taken, ready));
            assert(answered(driven, pending_events(start.connections@), *self));
        }
    }
}

/// Whether `steps` leads an endpoint through its associations one after the other.
pub open spec fn drove_each(steps: Seq<TestEndpoint>, now: Instant) -> bool {
    &&& steps.len() == steps[0].connections@.len() + 1
    &&& forall|j: int|
        0 <= j < steps.len() - 1 ==> drove(#[trigger] steps[j], j, now, steps[j + 1])
}

/// Whether `after` is the endpoint `before` once it answered those events.
pub open spec fn answered(
    before: TestEndpoint,
    events: Seq<(AssociationHandle, EndpointEvent)>,
    after: TestEndpoint,
) -> bool {
    &&& after == (TestEndpoint { endpoint: after.endpoint, ..before })
    &&& exists|states: Seq<Endpoint>| #[trigger]
        answers_all(states, events) && states.first() == before.endpoint && states.last()
            == after.endpoint
}

/// Whether `after` is the endpoint `before` once it was driven.
pub open spec fn drives(before: TestEndpoint, now: Instant, after: TestEndpoint) -> bool {
    exists|taken: TestEndpoint, steps: Seq<TestEndpoint>|
        #![trigger received(before, now, taken), drove_each(steps, now)]
        received(before, now, taken) && drove_each(steps, now) && collected(taken, steps.first())
            && answered(steps.last(), pending_events(before.connections@), after)
}

/// Whether no timer of any of the associations runs.
pub open spec fn all_idle(connections: Seq<(AssociationHandle, Association)>) -> bool {
    forall|i: int|
        0 <= i < connections.len() ==> is_earliest((#[trigger] connections[i]).1.timers@, None)
}

impl TestEndpoint {
    /// When something is due next: the timers of an association, or a datagram.
    pub open spec fn wakeup(&self) -> Option<Instant> {
        lesser(
            self.timeout,
            if self.inbound@.len() > 0 {
                Some(self.inbound@[0].0)
            } else {
                None
            },
        )
    }

    /// When something is due next: the timers of an association, or a datagram.
    pub fn next_wakeup(&self) -> (r: Option<Instant>)
        ensures
            r == self.wakeup(),
    {
        let next_inbound: Option<Instant> = if self.inbound.len() > 0 {
            Some(self.inbound[0].0)
        } else {
            None
        };
        min_opt(self.timeout, next_inbound)
    }

    /// Whether no timer of any association runs.
    pub fn is_idle(&self) -> (r: bool)
        ensures
            r == all_idle(self.connections@),
    {
        let mut i: usize = 0;
        while i < self.connections.len()
            invariant
                i <= self.connections@.len(),
                forall|j: int|
                    0 <= j < i ==> is_earliest((#[trigger] self.connections@[j]).1.timers@, None),
            decreases self.connections@.len() - i,
        {
            if !self.connections[i].1.is_idle() {
                assert(!is_earliest(self.connections@[i as int].1.timers@, None));
                return false;
            }
            i += 1;
        }
        true
    }

    /// Holds back what is to go out. Nothing may be held back already.
    pub fn delay_outbound(&mut self)
        requires
            old(self).delayed@.len() == 0,
        ensures
            delays(*old(self), *final(self)),
    {
        std::mem::swap(&mut self.delayed, &mut self.outbound);
    }

    /// Lets go of what was held back, behind what is to go out.
    pub fn finish_delay(&mut self)
        ensures
            releases(*old(self), *final(self)),
    {
        loop
            invariant
                *self == (TestEndpoint {
                    outbound: self.outbound,
                    delayed: self.delayed,
                    ..*old(self)
                }),
                self.outbound@ + self.delayed@ == old(self).outbound@ + old(self).delayed@,
            decreases self.delayed@.len(),
        {
            let ghost out = self.outbound@;
            let ghost left = self.delayed@;
            match self.delayed.pop_front() {
                Some(x) => {
                    self.outbound.push_back(x);
                    assert(self.outbound@ + self.delayed@ =~= out + left);
                },
                None => {
                    assert(self.outbound@ =~= out + left);
                    return;
                },
            }
        }
    }

    /// Takes the next event for the application from the association with that handle. There has to
    /// be one.
    fn next_event(&mut self, ch: AssociationHandle) -> (r: Option<Event>)
        requires
            has_connection(old(self).connections@, ch),
        ensures
            exists|i: int| #[trigger]
                is_connection(old(self).connections@, ch, i) && took_event(
                    *old(self),
                    i,
                    *final(self),
                ) && r == next_of(old(self).connections@[i].1.events@),
    {
        let i: usize = self.find_connection(ch).unwrap();
        let (_, conn) = self.connections.remove(i);
        let mut conn: Association = conn;
        let ghost had = conn.events@;
        let r: Option<Event> = conn.poll_event();
        let ghost left = conn;
        self.connections.insert(i, (ch, conn));
        proof {
            assert(left.events@ =~= (if had.len() > 0 {
                had.skip(1)
            } else {
                had
            }));
            assert(self.connections@ =~= old(self).connections@.update(i as int, (ch, left)));
            assert(took_event(*old(self), i as int, *self));
        }
        r
    }

    /// The association that was accepted. There has to be one.
    pub fn assert_accept(&mut self) -> (r: AssociationHandle)
        requires
            old(self).accepted is Some,
        ensures
            *final(self) == (TestEndpoint { accepted: None, ..*old(self) }),
            old(self).accepted == Some(r),
    {
        let accepted: Option<AssociationHandle> = self.accepted.take();
        accepted.unwrap()
    }
}

/// Whether `after` is the endpoint `before` with what was to go out held back.
pub open spec fn delays(before: TestEndpoint, after: TestEndpoint) -> bool {
    after == (TestEndpoint { outbound: before.delayed, delayed: before.outbound, ..before })
}

/// Whether `after` is the endpoint `before` with what was held back let go.
pub open spec fn releases(before: TestEndpoint, after: TestEndpoint) -> bool {
    &&& after == (TestEndpoint { outbound: after.outbound, delayed: after.delayed, ..before })
    &&& after.outbound@ == before.outbound@ + before.delayed@
    &&& after.delayed@.len() == 0
}

/// What a delay holds back goes out after it, in the same order and with nothing else touched.
pub proof fn law_delay_keeps_outbound(
    before: TestEndpoint,
    held: TestEndpoint,
    after: TestEndpoint,
)
    requires
        before.delayed@.len() == 0,
        delays(before, held),
        releases(held, after),
    ensures
        after.outbound@ == before.outbound@,
        after == (TestEndpoint { outbound: after.outbound, delayed: after.delayed, ..before }),
{
    assert(before.delayed@ + before.outbound@ =~= before.outbound@);
}

/// A client and a server, and the time.
pub struct Pair {
    pub server: TestEndpoint,
    pub client: TestEndpoint,
    pub time: Instant,
    /// How long a datagram takes, in nanoseconds.
    pub latency: u64,
}

/// The contents and the destinations of the datagrams in a transmission.
pub open spec fn datagrams_of(x: Transmit) -> Seq<(Seq<u8>, SocketAddr)> {
    match x.payload {
        Payload::RawEncode(contents) => contents@.map_values(
            |b: Bytes| (bytes_content(b), x.remote),
        ),
    }
}

/// The contents and the destinations of the datagrams in some transmissions.
pub open spec fn all_datagrams(outbound: Seq<Transmit>) -> Seq<(Seq<u8>, SocketAddr)>
    decreases outbound.len(),
{
    if outbound.len() == 0 {
        Seq::empty()
    } else {
        all_datagrams(outbound.drop_last()) + datagrams_of(outbound.last())
    }
}

/// The datagrams of a transmission that arrive at an address, at a time.
pub open spec fn arrivals_of(x: Transmit, addr: SocketAddr, at: Instant) -> Seq<
    (Instant, Option<EcnCodepoint>, Seq<u8>),
> {
    if addr == x.remote {
        match x.payload {
            Payload::RawEncode(contents) => contents@.map_values(
                |b: Bytes| (at, x.ecn, bytes_content(b)),
            ),
        }
    } else {
        Seq::empty()
    }
}

/// The datagrams of some transmissions that arrive at an address, at a time.
pub open spec fn all_arrivals(outbound: Seq<Transmit>, addr: SocketAddr, at: Instant) -> Seq<
    (Instant, Option<EcnCodepoint>, Seq<u8>),
>
    decreases outbound.len(),
{
    if outbound.len() == 0 {
        Seq::empty()
    } else {
        all_arrivals(outbound.drop_last(), addr, at) + arrivals_of(outbound.last(), addr, at)
    }
}

/// The values of some datagrams on their way.
pub open spec fn inbound_views(inbound: Seq<Inbound>) -> Seq<
    (Instant, Option<EcnCodepoint>, Seq<u8>),
> {
    inbound.map_values(|x: Inbound| (x.0, x.1, bytes_content(x.2)))
}

/// The values of some datagrams that were sent.
pub open spec fn sent_views(sent: Seq<(Bytes, SocketAddr)>) -> Seq<(Seq<u8>, SocketAddr)> {
    sent.map_values(|x: (Bytes, SocketAddr)| (bytes_content(x.0), x.1))
}

/// Sends out the datagrams of a transmission: those for the peer are on their way to it afterwards.
/// Yields all of them.
fn send_transmit(x: Transmit, to: &mut TestEndpoint, at: Instant, sent: &mut Vec<
    (Bytes, SocketAddr),
>)
    ensures
        *final(to) == (TestEndpoint { inbound: final(to).inbound, ..*old(to) }),
        inbound_views(final(to).inbound@) == inbound_views(old(to).inbound@) + arrivals_of(
            x,
            old(to).addr,
            at,
        ),
        sent_views(final(sent)@) == sent_views(old(sent)@) + datagrams_of(x),
{
    let Payload::RawEncode(packets) = x.payload;
    let ghost views = packets@.map_values(|b: Bytes| (bytes_content(b), x.remote));
    let ghost coming = arrivals_of(x, to.addr, at);
    let ghost sent0 = sent_views(sent@);
    let ghost inbound0 = inbound_views(to.inbound@);
    let mut i: usize = 0;
    assert(sent0 + views.take(0) =~= sent0);
    assert(inbound0 + coming.take(0) =~= inbound0);
    while i < packets.len()
        invariant
            i <= packets@.len(),
            *to == (TestEndpoint { inbound: to.inbound, ..*old(to) }),
            views == packets@.map_values(|b: Bytes| (bytes_content(b), x.remote)),
            coming == (if old(to).addr == x.remote {
                packets@.map_values(|b: Bytes| (at, x.ecn, bytes_content(b)))
            } else {
                Seq::empty()
            }),
            sent_views(sent@) == sent0 + views.take(i as int),
            old(to).addr == x.remote ==> inbound_views(to.inbound@) == inbound0 + coming.take(
                i as int,
            ),
            old(to).addr != x.remote ==> to.inbound@ == old(to).inbound@,
        decreases packets@.len() - i,
    {
        let content: Bytes = packets[i].clone();
        let ghost had = sent_views(sent@);
        let ghost coming_had = inbound_views(to.inbound@);
        let copy: Bytes = content.clone();
        sent.push((copy, x.remote));
        proof {
            assert(views.take(i + 1) =~= views.take(i as int).push(views[i as int]));
            assert(sent_views(sent@) =~= had.push((bytes_content(copy), x.remote)));
            assert(sent_views(sent@) =~= sent0 + views.take(i + 1));
        }
        if to.addr == x.remote {
            to.inbound.push_back((at, x.ecn, content));
            proof {
                assert(coming.take(i + 1) =~= coming.take(i as int).push(coming[i as int]));
                assert(inbound_views(to.inbound@) =~= coming_had.push(
                    (at, x.ecn, bytes_content(content)),
                ));
                assert(inbound_views(to.inbound@) =~= inbound0 + coming.take(i + 1));
            }
        }
        i += 1;
    }
    proof {
        assert(views.take(views.len() as int) =~= views);
        assert(coming.take(coming.len() as int) =~= coming);
        assert(inbound0 + Seq::<(Instant, Option<EcnCodepoint>, Seq<u8>)>::empty() =~= inbound0);
    }
}

/// Sends out what an endpoint has for that: the datagrams for the peer are on their way to it
/// afterwards. Yields all of them.
fn send_outbound(from: &mut TestEndpoint, to: &mut TestEndpoint, at: Instant) -> (r: Vec<
    (Bytes, SocketAddr),
>)
    ensures
        sends(*old(from), *old(to), at, *final(from), *final(to), sent_views(r@)),
{
    let ghost out = from.outbound@;
    let ghost mut k: int = 0;
    let mut sent: Vec<(Bytes, SocketAddr)> = Vec::new();
    proof {
        assert(out.take(0) =~= Seq::<Transmit>::empty());
        assert(out.skip(0) =~= out);
        assert(sent_views(sent@) =~= all_datagrams(out.take(0)));
        assert(inbound_views(to.inbound@) =~= inbound_views(old(to).inbound@) + all_arrivals(
            out.take(0),
            to.addr,
            at,
        ));
    }
    loop
        invariant
            *from == (TestEndpoint { outbound: from.outbound, ..*old(from) }),
            *to == (TestEndpoint { inbound: to.inbound, ..*old(to) }),
            out == old(from).outbound@,
            0 <= k <= out.len(),
            from.outbound@ == out.skip(k),
            sent_views(sent@) == all_datagrams(out.take(k)),
            inbound_views(to.inbound@) == inbound_views(old(to).inbound@) + all_arrivals(
                out.take(k),
                old(to).addr,
                at,
            ),
        decreases from.outbound@.len(),
    {
        match from.outbound.pop_front() {
            Some(x) => {
                proof {
                    assert(out.take(k + 1).drop_last() =~= out.take(k));
                    assert(out.take(k + 1).last() == x);
                    assert(from.outbound@ =~= out.skip(k + 1));
                }
                send_transmit(x, to, at, &mut sent);
                proof {
                    assert(inbound_views(to.inbound@) =~= inbound_views(old(to).inbound@)
                        + all_arrivals(out.take(k + 1), old(to).addr, at));
                    k = k + 1;
                }
            },
            None => {
                assert(out.take(k) =~= out);
                return sent;
            },
        }
    }
}

/// Whether `from_after`, `to_after` and `sent` are what sending out makes of `from` and `to`.
pub open spec fn sends(
    from: TestEndpoint,
    to: TestEndpoint,
    at: Instant,
    from_after: TestEndpoint,
    to_after: TestEndpoint,
    sent: Seq<(Seq<u8>, SocketAddr)>,
) -> bool {
    &&& from_after == (TestEndpoint { outbound: from_after.outbound, ..from })
    &&& from_after.outbound@.len() == 0
    &&& to_after == (TestEndpoint { inbound: to_after.inbound, ..to })
    &&& inbound_views(to_after.inbound@) == inbound_views(to.inbound@) + all_arrivals(
        from.outbound@,
        to.addr,
        at,
    )
    &&& sent == all_datagrams(from.outbound@)
}

/// Whether `(from_after, to_after)` and `sent` are what driving an endpoint and sending out what it
/// has for its peer makes of `(from, to)`.
pub open spec fn drives_side(
    from: TestEndpoint,
    to: TestEndpoint,
    now: Instant,
    latency: u64,
    from_after: TestEndpoint,
    to_after: TestEndpoint,
    sent: Seq<(Seq<u8>, SocketAddr)>,
) -> bool {
    exists|mid: TestEndpoint| #[trigger]
        drives(from, now, mid) && sends(
            mid,
            to,
            Instant { nanos: (now.nanos + latency) as u64 },
            from_after,
            to_after,
            sent,
        )
}

impl Pair {
    /// Whether both sides are in order.
    pub open spec fn wf(&self) -> bool {
        &&& self.server.wf()
        &&& self.client.wf()
    }

    /// Whether both sides can answer what their associations ask for.
    pub open spec fn can_answer(&self) -> bool {
        &&& self.client.can_answer()
        &&& self.server.can_answer()
    }

    /// Whether a datagram that is sent now arrives at a time that can be told.
    pub open spec fn can_send(&self) -> bool {
        self.time.nanos + self.latency <= u64::MAX
    }

    /// A pair with that configuration, at two addresses.
    pub fn new(
        endpoint_config: Arc<EndpointConfig>,
        server_config: ServerConfig,
        client_addr: SocketAddr,
        server_addr: SocketAddr,
        time: Instant,
    ) -> (r: Self)
        ensures
            r.wf(),
            r.can_answer(),
            r.time == time,
            r.latency == 0,
            r.client.addr == client_addr,
            r.client.endpoint.is_new(endpoint_config, None),
            r.client.is_quiet(),
            r.server.addr == server_addr,
            r.server.endpoint.is_new(endpoint_config, Some(Arc::new(server_config))),
            r.server.is_quiet(),
    {
        let server = Endpoint::new(Arc::clone(&endpoint_config), Some(Arc::new(server_config)));
        let client = Endpoint::new(endpoint_config, None);
        Pair::new_from_endpoint(client, server, client_addr, server_addr, time)
    }

    /// A pair of two endpoints, at two addresses.
    pub fn new_from_endpoint(
        client: Endpoint,
        server: Endpoint,
        client_addr: SocketAddr,
        server_addr: SocketAddr,
        time: Instant,
    ) -> (r: Self)
        requires
            client.wf(),
            server.wf(),
        ensures
            r.wf(),
            r.can_answer(),
            r.time == time,
            r.latency == 0,
            r.client.endpoint == client,
            r.client.addr == client_addr,
            r.client.is_quiet(),
            r.server.endpoint == server,
            r.server.addr == server_addr,
            r.server.is_quiet(),
    {
        Pair {
            server: TestEndpoint::new(server, server_addr),
            client: TestEndpoint::new(client, client_addr),
            time,
            latency: 0,
        }
    }

    /// Drives the client, and sends out what it has. Yields that.
    pub fn drive_client(&mut self) -> (r: Vec<(Bytes, SocketAddr)>)
        requires
            old(self).wf(),
            old(self).client.can_answer(),
            old(self).can_send(),
        ensures
            final(self).wf(),
            final(self).time == old(self).time,
            final(self).latency == old(self).latency,
            drives_side(
                old(self).client,
                old(self).server,
                old(self).time,
                old(self).latency,
                final(self).client,
                final(self).server,
                sent_views(r@),
            ),
    {
        let now: Instant = self.time;
        self.client.drive(now, self.server.addr);
        assert(drives(old(self).client, now, self.client));
        let at = Instant { nanos: now.nanos + self.latency };
        send_outbound(&mut self.client, &mut self.server, at)
    }

    /// Drives the server, and sends out what it has. Yields that.
    pub fn drive_server(&mut self) -> (r: Vec<(Bytes, SocketAddr)>)
        requires
            old(self).wf(),
            old(self).server.can_answer(),
            old(self).can_send(),
        ensures
            final(self).wf(),
            final(self).time == old(self).time,
            final(self).latency == old(self).latency,
            drives_side(
                old(self).server,
                old(self).client,
                old(self).time,
                old(self).latency,
                final(self).server,
                final(self).client,
                sent_views(r@),
            ),
    {
        let now: Instant = self.time;
        self.server.drive(now, self.client.addr);
        assert(drives(old(self).server, now, self.server));
        let at = Instant { nanos: now.nanos + self.latency };
        send_outbound(&mut self.server, &mut self.client, at)
    }
}

/// Whether `after`, `client_sent` and `server_sent` are what driving the client and then the server
/// makes of the pair `before`. The time stays as it is.
pub open spec fn drives_both(
    before: Pair,
    after: Pair,
    client_sent: Seq<(Seq<u8>, SocketAddr)>,
    server_sent: Seq<(Seq<u8>, SocketAddr)>,
) -> bool {
    &&& after.time == before.time
    &&& after.latency == before.latency
    &&& exists|client: TestEndpoint, server: TestEndpoint|
        drives_side(
            before.client,
            before.server,
            before.time,
            before.latency,
            client,
            server,
            client_sent,
        ) && #[trigger] drives_side(
            server,
            client,
            before.time,
            before.latency,
            after.server,
            after.client,
            server_sent,
        )
}

/// The time to which a pair advances: when something is due next on either side, provided that a
/// timer runs.
pub open spec fn advances_to(pair: Pair) -> Option<Instant> {
    if all_idle(pair.client.connections@) && all_idle(pair.server.connections@) {
        None
    } else {
        lesser(pair.client.wakeup(), pair.server.wakeup())
    }
}

/// The later of two times.
pub open spec fn later(x: Instant, y: Instant) -> Instant {
    if x.nanos >= y.nanos {
        x
    } else {
        y
    }
}

/// The first of some events, if there are any.
pub open spec fn next_of(events: Seq<Event>) -> Option<Event> {
    if events.len() > 0 {
        Some(events[0])
    } else {
        None
    }
}

/// Whether `after` is the endpoint `before` once the next event for the application, if there is
/// one, was taken from the association at `i`.
pub open spec fn took_event(before: TestEndpoint, i: int, after: TestEndpoint) -> bool {
    let (ch, conn) = before.connections@[i];
    let left = after.connections@[i].1;
    &&& after == (TestEndpoint { connections: after.connections, ..before })
    &&& after.connections@ == before.connections@.update(i, (ch, left))
    &&& left == (Association { events: left.events, ..conn })
    &&& left.events@ == (if conn.events@.len() > 0 {
        conn.events@.skip(1)
    } else {
        conn.events@
    })
}

/// Whether `after` is the roster `before` with an association entered under an identifier that was
/// not in use.
pub open spec fn entered(
    before: Roster,
    ch: AssociationHandle,
    init_cid: AssociationId,
    loc_cid: AssociationId,
    remote: SocketAddr,
    after: Roster,
) -> bool {
    &&& !before.ids.contains_key(loc_cid)
    &&& after == before.with_member(ch, init_cid, loc_cid, remote)
}

impl Pair {
    /// Drives both sides once, and advances the time to when something is due next. Yields whether
    /// there is anything that can become due, and what either side sent.
    pub fn step(&mut self) -> (r: (bool, Vec<(Bytes, SocketAddr)>, Vec<(Bytes, SocketAddr)>))
        requires
            old(self).wf(),
            old(self).can_answer(),
            old(self).can_send(),
        ensures
            final(self).wf(),
            drives_both(
                *old(self),
                (Pair { time: old(self).time, ..*final(self) }),
                sent_views(r.1@),
                sent_views(r.2@),
            ),
            match advances_to(*final(self)) {
                Some(t) => r.0 && final(self).time == later(old(self).time, t),
                None => !r.0 && final(self).time == old(self).time,
            },
    {
        let client_sent: Vec<(Bytes, SocketAddr)> = self.drive_client();
        let server_sent: Vec<(Bytes, SocketAddr)> = self.drive_server();
        assert(drives_both(*old(self), *self, sent_views(client_sent@), sent_views(server_sent@)));
        if self.client.is_idle() && self.server.is_idle() {
            return (false, client_sent, server_sent);
        }
        let client_t: Option<Instant> = self.client.next_wakeup();
        let server_t: Option<Instant> = self.server.next_wakeup();
        match min_opt(client_t, server_t) {
            Some(t) => {
                if t.nanos > self.time.nanos {
                    self.time = t;
                }
                (true, client_sent, server_sent)
            },
            None => (false, client_sent, server_sent),
        }
    }

    /// Just start connecting the client
    pub fn begin_connect(&mut self, config: ClientConfig) -> (r: AssociationHandle)
        requires
            old(self).wf(),
            old(self).client.endpoint.roster().ids.len() <= MAX_IDENTIFIERS,
            old(self).server.addr.port != 0,
        ensures
            final(self).wf(),
            *final(self) == (Pair {
                client: TestEndpoint {
                    endpoint: final(self).client.endpoint,
                    connections: final(self).client.connections,
                    ..old(self).client
                },
                ..*old(self)
            }),
            exists|conn: Association| #[trigger]
                with_connection(
                    old(self).client.connections@,
                    r,
                    conn,
                    final(self).client.connections@,
                ) && exists|seed: u32, tag: u32| #[trigger]
                    conn.is_fresh(Side::Client, *config.transport, seed, tag),
            exists|init_cid: AssociationId, loc_cid: AssociationId| #[trigger]
                entered(
                    old(self).client.endpoint.roster(),
                    r,
                    init_cid,
                    loc_cid,
                    old(self).server.addr,
                    final(self).client.endpoint.roster(),
                ) && drew_one(
                    old(self).client.endpoint.local_cid_generator,
                    old(self).client.endpoint.roster().ids,
                    loc_cid,
                    final(self).client.endpoint.local_cid_generator,
                ),
    {
        let remote: SocketAddr = self.server.addr;
        let now: Instant = self.time;
        let connected: Result<(AssociationHandle, Association), ConnectError> =
            self.client.endpoint.connect(config, remote, "", now);
        let (client_ch, client_conn) = connected.unwrap();
        proof {
            let before = old(self).client.endpoint.roster();
            let after = self.client.endpoint.roster();
            let (init_cid, loc_cid) = choose|init_cid: AssociationId, loc_cid: AssociationId|
                drew_one(
                    old(self).client.endpoint.local_cid_generator,
                    before.ids,
                    loc_cid,
                    self.client.endpoint.local_cid_generator,
                ) && after == #[trigger] before.with_member(
                    client_ch,
                    init_cid,
                    loc_cid,
                    remote,
                );
            assert(entered(before, client_ch, init_cid, loc_cid, remote, after));
        }
        self.client.insert_connection(client_ch, client_conn);
        client_ch
    }

    /// Takes the next event of both associations of a connection. Yields whether both say that the
    /// association is set up; the server is not asked where the client does not say so.
    pub fn finish_connect(
        &mut self,
        client_ch: AssociationHandle,
        server_ch: AssociationHandle,
    ) -> (r: bool)
        requires
            old(self).wf(),
            has_connection(old(self).client.connections@, client_ch),
            has_connection(old(self).server.connections@, server_ch),
        ensures
            exists|i: int, j: int| #[trigger]
                is_connection(old(self).client.connections@, client_ch, i) && #[trigger]
                    is_connection(old(self).server.connections@, server_ch, j) && {
                    let client = old(self).client.connections@[i].1.events@;
                    let server = old(self).server.connections@[j].1.events@;
                    let client_is = next_of(client) == Some(Event::Connected);
                    &&& r == (client_is && next_of(server) == Some(Event::Connected))
                    &&& took_event(old(self).client, i, final(self).client)
                    &&& if client_is {
                        took_event(old(self).server, j, final(self).server)
                    } else {
                        final(self).server == old(self).server
                    }
                },
            final(self).time == old(self).time,
            final(self).latency == old(self).latency,
    {
        let client_event: Option<Event> = self.client.next_event(client_ch);
        if client_event != Some(Event::Connected) {
            return false;
        }
        let server_event: Option<Event> = self.server.next_event(server_ch);
        server_event == Some(Event::Connected)
    }

    /// The association of the client with that handle. There has to be one.
    pub fn client_conn_mut<'a>(&'a mut self, ch: AssociationHandle) -> (r: &'a mut Association)
        requires
            has_connection(old(self).client.connections@, ch),
        ensures
            exists|i: int| #[trigger]
                is_connection(old(self).client.connections@, ch, i) && {
                    &&& *r == old(self).client.connections@[i].1
                    &&& final(self).client.connections@ == old(self).client.connections@.update(
                        i,
                        (ch, *final(r)),
                    )
                },
            *final(self) == (Pair {
                client: TestEndpoint {
                    connections: final(self).client.connections,
                    ..old(self).client
                },
                ..*old(self)
            }),
    {
        let i: usize = self.client.find_connection(ch).unwrap();
        &mut self.client.connections[i].1
    }

    /// The association of the server with that handle. There has to be one.
    pub fn server_conn_mut<'a>(&'a mut self, ch: AssociationHandle) -> (r: &'a mut Association)
        requires
            has_connection(old(self).server.connections@, ch),
        ensures
            exists|i: int| #[trigger]
                is_connection(old(self).server.connections@, ch, i) && {
                    &&& *r == old(self).server.connections@[i].1
                    &&& final(self).server.connections@ == old(self).server.connections@.update(
                        i,
                        (ch, *final(r)),
                    )
                },
            *final(self) == (Pair {
                server: TestEndpoint {
                    connections: final(self).server.connections,
                    ..old(self).server
                },
                ..*old(self)
            }),
    {
        let i: usize = self.server.find_connection(ch).unwrap();
        &mut self.server.connections[i].1
    }
}

} // verus!
