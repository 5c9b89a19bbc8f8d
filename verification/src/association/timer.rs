//! The timers of an association.

use vstd::prelude::*;

use crate::time::Instant;

verus! {

/// How many kinds of timers there are.
pub const TIMER_COUNT: usize = 6;

/// A kind of timer.
#[derive(Debug, Clone, Copy, PartialEq, Eq, Structural)]
pub enum Timer {
    /// Waits for the answer to an INIT chunk.
    T1Init,
    /// Waits for the answer to a COOKIE-ECHO chunk.
    T1Cookie,
    /// Waits for the answer to a shutdown.
    T2Shutdown,
    /// Waits for the acknowledgement of data.
    T3RTX,
    /// Waits for the answer to a reconfiguration request.
    Reconfig,
    /// Holds an acknowledgement back.
    Ack,
}

impl Timer {
    /// The place of a timer in the table.
    pub open spec fn place(self) -> int {
        match self {
            Timer::T1Init => 0,
            Timer::T1Cookie => 1,
            Timer::T2Shutdown => 2,
            Timer::T3RTX => 3,
            Timer::Reconfig => 4,
            Timer::Ack => 5,
        }
    }

    /// The place of the timer in the table.
    pub fn index(self) -> (r: usize)
        ensures
            r == self.place(),
            r < TIMER_COUNT,
    {
        match self {
            Timer::T1Init => 0,
            Timer::T1Cookie => 1,
            Timer::T2Shutdown => 2,
            Timer::T3RTX => 3,
            Timer::Reconfig => 4,
            Timer::Ack => 5,
        }
    }

    /// All timers, each at its place.
    pub fn values() -> (r: [Timer; TIMER_COUNT])
        ensures
            forall|i: int| 0 <= i < TIMER_COUNT ==> (#[trigger] r[i]).place() == i,
    {
        [
            Timer::T1Init,
            Timer::T1Cookie,
            Timer::T2Shutdown,
            Timer::T3RTX,
            Timer::Reconfig,
            Timer::Ack,
        ]
    }
}

/// Whether `t` is the earliest of the times in a table, or absent where the table is empty.
pub open spec fn is_earliest(times: Seq<Option<Instant>>, t: Option<Instant>) -> bool {
    match t {
        Some(t) => times.contains(Some(t)) && forall|i: int|
            0 <= i < times.len() && times[i] is Some ==> t.nanos <= (#[trigger] times[i])->0.nanos,
        None => forall|i: int| 0 <= i < times.len() ==> (#[trigger] times[i]) is None,
    }
}

/// A table of data associated with each distinct kind of `Timer`
#[derive(Debug, Clone, Copy)]
pub struct TimerTable {
    pub data: [Option<Instant>; TIMER_COUNT],
}

impl View for TimerTable {
    type V = Seq<Option<Instant>>;

    /// When each timer expires, by its place; `None` for a timer that does not run.
    open spec fn view(&self) -> Seq<Option<Instant>> {
        self.data@
    }
}

impl Default for TimerTable {
    fn default() -> (r: Self)
        ensures
            r@ == Seq::new(TIMER_COUNT as nat, |i: int| None::<Instant>),
    {
        let r = TimerTable { data: [None, None, None, None, None, None] };
        assert(r@ =~= Seq::new(TIMER_COUNT as nat, |i: int| None::<Instant>));
        r
    }
}

impl TimerTable {
    /// Sets the time at which a timer expires.
    pub fn set(&mut self, timer: Timer, time: Instant)
        ensures
            final(self)@ == old(self)@.update(timer.place(), Some(time)),
    {
        self.data[timer.index()] = Some(time);
    }

    /// The time at which a timer expires, if it runs.
    pub fn get(&self, timer: Timer) -> (r: Option<Instant>)
        ensures
            r == self@[timer.place()],
    {
        self.data[timer.index()]
    }

    /// Stops a timer.
    pub fn stop(&mut self, timer: Timer)
        ensures
            final(self)@ == old(self)@.update(timer.place(), None),
    {
        self.data[timer.index()] = None;
    }

    /// The earliest time at which a timer expires, if any runs.
    pub fn next_timeout(&self) -> (r: Option<Instant>)
        ensures
            is_earliest(self@, r),
    {
        let mut first: Option<Instant> = None;
        let mut i: usize = 0;
        while i < TIMER_COUNT
            invariant
                i <= TIMER_COUNT,
                is_earliest(self@.take(i as int), first),
            decreases TIMER_COUNT - i,
        {
            let ghost before = self@.take(i as int);
            let here: Option<Instant> = self.data[i];
            assert(self@.take(i + 1) =~= before.push(here));
            match (first, here) {
                (Some(f), Some(h)) => {
                    if h.nanos < f.nanos {
                        first = here;
                        assert(before.push(here)[i as int] == Some(h));
                    } else {
                        let ghost j = choose|j: int| 0 <= j < before.len() && before[j] == Some(f);
                        assert(before.push(here)[j] == Some(f));
                    }
                },
                (None, Some(h)) => {
                    first = here;
                    assert(before.push(here)[i as int] == Some(h));
                },
                (Some(f), None) => {
                    let ghost j = choose|j: int| 0 <= j < before.len() && before[j] == Some(f);
                    assert(before.push(here)[j] == Some(f));
                },
                (None, None) => {},
            }
            i += 1;
        }
        assert(self@.take(TIMER_COUNT as int) =~= self@);
        first
    }

    /// Whether a timer runs and has expired by the time `after`.
    pub fn is_expired(&self, timer: Timer, after: Instant) -> (r: bool)
        ensures
            r == (self@[timer.place()] matches Some(t) && t.nanos <= after.nanos),
    {
        match self.data[timer.index()] {
            Some(t) => t.nanos <= after.nanos,
            None => false,
        }
    }
}

/// A timer that was set is found as it was set; the others are not touched.
pub proof fn law_timer_set_get(times: Seq<Option<Instant>>, t: Timer, u: Timer, at: Instant)
    requires
        times.len() == TIMER_COUNT,
    ensures
        times.update(t.place(), Some(at))[u.place()] == (if u == t {
            Some(at)
        } else {
            times[u.place()]
        }),
        times.update(t.place(), None::<Instant>)[u.place()] == (if u == t {
            None
        } else {
            times[u.place()]
        }),
{
}

/// No timer has expired before the next timeout, and one has by then.
pub proof fn law_next_timeout_is_first_expiry(
    times: Seq<Option<Instant>>,
    next: Option<Instant>,
    now: Instant,
)
    requires
        is_earliest(times, next),
    ensures
        (exists|i: int|
            0 <= i < times.len() && ((#[trigger] times[i]) matches Some(t) && t.nanos <= now.nanos))
            <==> (next matches Some(t) && t.nanos <= now.nanos),
{
    if let Some(t) = next {
        let j = choose|j: int| 0 <= j < times.len() && times[j] == Some(t);
        assert(times[j] matches Some(x) && x == t);
    }
}

/// Each timer has a place of its own in the table.
pub proof fn law_timers_have_places(t: Timer, u: Timer)
    ensures
        0 <= t.place() < 6,
        t != u ==> t.place() != u.place(),
        TIMER_COUNT == 6,
{
}

/// The next timeout is a time at which one of the timers expires, and none expires before it; there is
/// none where no timer runs.
pub proof fn law_next_timeout(times: Seq<Option<Instant>>, next: Option<Instant>, i: int)
    requires
        is_earliest(times, next),
        0 <= i < times.len(),
    ensures
        times[i] is Some ==> next is Some && next->0.nanos <= times[i]->0.nanos,
        next is Some ==> times.contains(next),
{
}

} // verus!
