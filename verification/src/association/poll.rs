//! What an association takes in and gives out.

use vstd::prelude::*;

use crate::association::timer::is_earliest;
use crate::association::{Association, Event};
use crate::shared::{EndpointEvent, Transmit};
use crate::time::Instant;

verus! {

/// Whether `r` is the first of `before`, and `after` the rest; or there is nothing.
pub open spec fn popped<T>(before: Seq<T>, after: Seq<T>, r: Option<T>) -> bool {
    match r {
        Some(x) => before == seq![x] + after,
        None => before.len() == 0 && after.len() == 0,
    }
}

impl Association {
    /// Takes in a datagram.
    pub fn handle_transmit(&mut self, transmit: Transmit)
        ensures
            *final(self) == (Association { inbound: final(self).inbound, ..*old(self) }),
            final(self).inbound@ == old(self).inbound@.push(transmit),
    {
        self.inbound.push_back(transmit);
    }

    /// The next transmission that is ready to go out.
    #[must_use]
    pub fn poll_transmit(&mut self, now: Instant) -> (r: Option<Transmit>)
        ensures
            *final(self) == (Association { transmits: final(self).transmits, ..*old(self) }),
            popped(old(self).transmits@, final(self).transmits@, r),
    {
        let r: Option<Transmit> = self.transmits.pop_front();
        assert(r is Some ==> old(self).transmits@ =~= seq![r->0] + self.transmits@);
        r
    }

    /// The next event for the endpoint.
    #[must_use]
    pub fn poll_endpoint_event(&mut self) -> (r: Option<EndpointEvent>)
        ensures
            *final(self) == (Association {
                endpoint_events: final(self).endpoint_events,
                ..*old(self)
            }),
            popped(old(self).endpoint_events@, final(self).endpoint_events@, r),
    {
        let r: Option<EndpointEvent> = self.endpoint_events.pop_front();
        assert(r is Some ==> old(self).endpoint_events@ =~= seq![r->0] + self.endpoint_events@);
        r
    }

    /// The next event for the application.
    #[must_use]
    pub fn poll_event(&mut self) -> (r: Option<Event>)
        ensures
            *final(self) == (Association { events: final(self).events, ..*old(self) }),
            popped(old(self).events@, final(self).events@, r),
    {
        let r: Option<Event> = self.events.pop_front();
        assert(r is Some ==> old(self).events@ =~= seq![r->0] + self.events@);
        r
    }

    /// When the timers are to be looked after next, if one runs.
    pub fn poll_timeout(&self) -> (r: Option<Instant>)
        ensures
            is_earliest(self.timers@, r),
    {
        self.timers.next_timeout()
    }

    /// Whether no timer runs.
    pub fn is_idle(&self) -> (r: bool)
        ensures
            r == is_earliest(self.timers@, None),
    {
        self.timers.next_timeout().is_none()
    }
}

} // verus!
