//! Associations as applications drive them: operations on streams that may have to wait.
//!
//! Whoever runs an operation polls it with the state of the connection, and polls it again when the
//! connection says that the stream, or the connection as a whole, may have got on.

pub mod error;
pub mod laws;
pub mod read;
pub mod read_buf;
pub mod stream;
pub mod write;

use std::collections::{HashMap, HashSet};
use vstd::prelude::*;

use crate::association::{Association, AssociationError};
use crate::connection::error::{ErrorCauseCode, WriteError};
use crate::stream::state::StreamEvent;

verus! {

/// How far an operation is.
#[derive(Debug, Clone, Copy, PartialEq, Eq)]
pub enum Poll<T> {
    /// It is done.
    Ready(T),
    /// It has to wait.
    Pending,
}

/// An association with what waits on it.
#[derive(Debug)]
pub struct Connection {
    pub inner: Association,
    /// Why the association is lost, if it is.
    pub error: Option<AssociationError>,
    /// The streams that somebody waits for to be finished.
    pub finishing: HashSet<u16>,
    /// The streams that somebody waits for to be stopped.
    pub stopped: HashSet<u16>,
    /// The streams that somebody waits to read from.
    pub blocked_readers: HashSet<u16>,
    /// The streams that were finished or reset: no more data comes on them.
    pub finished: HashSet<u16>,
    /// The streams that the peer asked to stop sending on, with the code that it gave.
    pub stop_codes: HashMap<u16, ErrorCauseCode>,
    /// Whether there is something to do for whoever sends and receives packets.
    pub awake: bool,
}

/// Whether `after` is the connection `before` once it is known that no more data comes on a stream:
/// nobody is left waiting to read from it.
pub open spec fn ends(before: Connection, id: u16, after: Connection) -> bool {
    &&& after == (Connection {
        finished: after.finished,
        blocked_readers: after.blocked_readers,
        ..before
    })
    &&& after.finished@ == before.finished@.insert(id)
    &&& after.blocked_readers@ == before.blocked_readers@.remove(id)
}

/// Whether `after` and `r` are what an event about a stream makes of the connection `before`, where
/// `r` is what whoever waits for the stream to be finished hears, if somebody does.
pub open spec fn hears(
    before: Connection,
    event: StreamEvent,
    after: Connection,
    r: Option<Option<WriteError>>,
) -> bool {
    match event {
        StreamEvent::Readable { id } => {
            &&& after == (Connection { blocked_readers: after.blocked_readers, ..before })
            &&& after.blocked_readers@ == before.blocked_readers@.remove(id)
            &&& r is None
        },
        StreamEvent::Finished { id } => {
            &&& ends(before, id, (Connection { finishing: before.finishing, ..after }))
            &&& after.finishing@ == before.finishing@.remove(id)
            &&& r == (if before.finishing@.contains(id) {
                Some(None::<WriteError>)
            } else {
                None
            })
        },
        StreamEvent::Stopped { id, error_code } => {
            let code = ErrorCauseCode(error_code);
            &&& after == (Connection {
                stop_codes: after.stop_codes,
                stopped: after.stopped,
                finishing: after.finishing,
                ..before
            })
            &&& after.stop_codes@ == before.stop_codes@.insert(id, code)
            &&& after.stopped@ == before.stopped@.remove(id)
            &&& after.finishing@ == before.finishing@.remove(id)
            &&& r == (if before.finishing@.contains(id) {
                Some(Some(WriteError::Stopped(code)))
            } else {
                None
            })
        },
        _ => after == before && r is None,
    }
}

impl Connection {
    /// A connection on which nobody waits.
    pub fn new(inner: Association) -> (r: Self)
        ensures
            r.inner == inner,
            r.error is None,
            r.finishing@ == Set::<u16>::empty(),
            r.stopped@ == Set::<u16>::empty(),
            r.blocked_readers@ == Set::<u16>::empty(),
            r.finished@ == Set::<u16>::empty(),
            r.stop_codes@ == Map::<u16, ErrorCauseCode>::empty(),
            !r.awake,
    {
        Connection {
            inner,
            error: None,
            finishing: HashSet::new(),
            stopped: HashSet::new(),
            blocked_readers: HashSet::new(),
            finished: HashSet::new(),
            stop_codes: HashMap::new(),
            awake: false,
        }
    }

    /// Tells whoever sends and receives packets that there is something to do.
    pub fn wake(&mut self)
        ensures
            *final(self) == (Connection { awake: true, ..*old(self) }),
    {
        self.awake = true;
    }

    /// Takes in that no more data comes on a stream, since the peer finished or reset it.
    pub fn end_stream(&mut self, id: u16)
        ensures
            ends(*old(self), id, *final(self)),
    {
        broadcast use vstd::std_specs::hash::group_hash_axioms;

        self.finished.insert(id);
        self.blocked_readers.remove(&id);
    }

    /// Takes in an event about a stream. Yields what whoever waits for the stream to be finished
    /// hears, if somebody does.
    pub fn handle_stream_event(&mut self, event: StreamEvent) -> (r: Option<Option<WriteError>>)
        ensures
            hears(*old(self), event, *final(self), r),
    {
        broadcast use vstd::std_specs::hash::group_hash_axioms;

        match event {
            StreamEvent::Readable { id } => {
                self.blocked_readers.remove(&id);
                None
            },
            StreamEvent::Finished { id } => {
                self.end_stream(id);
                let ghost ended = *self;
                let awaited: bool = self.finishing.remove(&id);
                assert(Connection { finishing: old(self).finishing, ..*self } == ended);
                if awaited {
                    Some(None)
                } else {
                    None
                }
            },
            StreamEvent::Stopped { id, error_code } => {
                let code = ErrorCauseCode(error_code);
                self.stop_codes.insert(id, code);
                self.stopped.remove(&id);
                if self.finishing.remove(&id) {
                    Some(Some(WriteError::Stopped(code)))
                } else {
                    None
                }
            },
            StreamEvent::Opened | StreamEvent::Writable { .. } | StreamEvent::Available => None,
        }
    }
}

} // verus!
