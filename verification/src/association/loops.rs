//! The loops that receive and send the packets of an association.
//!
//! Each loop is a function from where it stands and what happened to where it stands next and what
//! is to be done. Whoever runs the loop does that, and says what came of it.

use bytes::Bytes;
use vstd::prelude::*;
use vstd::slice::slice_subrange;

use crate::association::Association;
use crate::buf::{bytes_content};
use crate::stream::handle::contents;

verus! {

/// Where the loop that receives packets stands.
#[derive(Debug, Clone, Copy, PartialEq, Eq, Structural)]
pub enum ReadState {
    /// A packet is being waited for.
    Receiving,
    /// A packet is being handled.
    Handling,
    /// The loop is over.
    Exited,
}

/// What happened to the loop that receives packets.
#[derive(Debug)]
pub enum ReadEvent<'a> {
    /// The loop is to end.
    Stopped,
    /// That many bytes were received into a buffer.
    Received(&'a [u8], usize),
    /// Receiving failed.
    Failed,
    /// A packet was handled, with success or without.
    Handled(bool),
}

/// What the loop that receives packets does next.
#[derive(Debug)]
pub enum ReadAction {
    /// Wait for a packet, or for the end of the loop.
    Receive,
    /// Handle a packet.
    Handle(Bytes),
    /// Nothing any more.
    Exit,
}

impl ReadState {
    /// Whether that can happen while the loop stands there. Of a buffer, no more bytes are received
    /// than it has.
    pub open spec fn expects(self, event: ReadEvent) -> bool {
        match (self, event) {
            (ReadState::Receiving, ReadEvent::Stopped) => true,
            (ReadState::Receiving, ReadEvent::Received(buffer, n)) => n <= buffer@.len(),
            (ReadState::Receiving, ReadEvent::Failed) => true,
            (ReadState::Handling, ReadEvent::Handled(_)) => true,
            _ => false,
        }
    }
}

/// Where the loop that sends packets stands.
#[derive(Debug)]
pub enum WriteState {
    /// Packets are being gathered.
    Gathering,
    /// Packets are being sent: which, how many of them are out, and whether there will be more.
    Sending(Vec<Bytes>, usize, bool),
    /// Work is being waited for.
    Waiting,
    /// The loop is over.
    Exited,
}

/// What happened to the loop that sends packets.
#[derive(Debug)]
pub enum WriteEvent {
    /// Packets were gathered; whether there will be more.
    Gathered(Vec<Bytes>, bool),
    /// A packet was sent, with success or without.
    Sent(bool),
    /// There is work.
    Awake,
    /// The loop is to end.
    Stopped,
}

/// What the loop that sends packets does next.
#[derive(Debug)]
pub enum WriteAction {
    /// Gather packets.
    Gather,
    /// Send a packet.
    Send(Bytes),
    /// Wait for work, or for the end of the loop.
    Wait,
    /// Nothing any more.
    Exit,
}

impl WriteState {
    /// Whether the number of packets that are out is less than that of all.
    pub open spec fn wf(self) -> bool {
        self matches WriteState::Sending(packets, sent, _) ==> sent < packets@.len()
    }

    /// Whether that can happen while the loop stands there.
    pub open spec fn expects(self, event: WriteEvent) -> bool {
        match (self, event) {
            (WriteState::Gathering, WriteEvent::Gathered(_, _)) => true,
            (WriteState::Sending(_, _, _), WriteEvent::Sent(_)) => true,
            (WriteState::Waiting, WriteEvent::Awake) => true,
            (WriteState::Waiting, WriteEvent::Stopped) => true,
            _ => false,
        }
    }
}

/// Whether `(next, action)` goes on with sending packets of which `sent` are out: the next one is
/// sent, or, once all are out, work is waited for.
pub open spec fn goes_on_sending(
    packets: Seq<Seq<u8>>,
    sent: int,
    ok: bool,
    next: WriteState,
    action: WriteAction,
) -> bool {
    if sent < packets.len() {
        &&& next matches WriteState::Sending(all, count, more) && contents(all@) == packets
            && count == sent && more == ok
        &&& action matches WriteAction::Send(raw) && bytes_content(raw) == packets[sent]
    } else {
        next is Waiting && action is Wait
    }
}

/// A count of bytes after that many more. It starts over when it does not fit any more.
pub open spec fn counted(bytes: usize, n: nat) -> usize {
    if bytes + n <= usize::MAX {
        (bytes + n) as usize
    } else {
        (bytes + n - (usize::MAX + 1)) as usize
    }
}

impl Association {
    /// One turn of the loop that receives packets. What was received is counted and handed on in a
    /// buffer of its own. The loop ends when it is told to, when nothing can be received, or when a
    /// packet cannot be handled; the association is closed then.
    pub fn read_loop<'a>(&mut self, state: ReadState, event: ReadEvent<'a>) -> (r: (
        ReadState,
        ReadAction,
    ))
        requires
            state.expects(event),
        ensures
            old(self).wf() ==> final(self).wf(),
            match event {
                ReadEvent::Received(buffer, n) => {
                    &&& *final(self) == (Association {
                        bytes_received: counted(old(self).bytes_received, n as nat),
                        ..*old(self)
                    })
                    &&& r.0 == ReadState::Handling
                    &&& r.1 matches ReadAction::Handle(raw) && bytes_content(raw) == buffer@.take(
                        n as int,
                    )
                },
                ReadEvent::Handled(true) => {
                    &&& *final(self) == *old(self)
                    &&& r.0 == ReadState::Receiving
                    &&& r.1 is Receive
                },
                _ => {
                    &&& old(self).closed_into(*final(self))
                    &&& r.0 == ReadState::Exited
                    &&& r.1 is Exit
                },
            },
    {
        match event {
            ReadEvent::Received(buffer, n) => {
                // The data is passed to the reassembly queue without copying, so that it needs a
                // buffer of its own.
                let inbound: Bytes = Bytes::copy_from_slice(slice_subrange(buffer, 0, n));
                assert(bytes_content(inbound) =~= buffer@.take(n as int));
                self.bytes_received = self.bytes_received.wrapping_add(n);
                (ReadState::Handling, ReadAction::Handle(inbound))
            },
            ReadEvent::Handled(true) => (ReadState::Receiving, ReadAction::Receive),
            _ => {
                let _ = self.close();
                (ReadState::Exited, ReadAction::Exit)
            },
        }
    }

    /// One turn of the loop that sends packets. Packets are gathered, sent one after the other and
    /// counted; then the loop waits for work. It ends when it is told to while it waits, when a
    /// packet cannot be sent, or when the last packets are out; the association is closed then.
    pub fn write_loop(&mut self, state: WriteState, event: WriteEvent) -> (r: (
        WriteState,
        WriteAction,
    ))
        requires
            state.wf(),
            state.expects(event),
        ensures
            old(self).wf() ==> final(self).wf(),
            r.0.wf(),
            match (state, event) {
                (_, WriteEvent::Gathered(packets, ok)) => old(self).began_sending(
                    contents(packets@),
                    ok,
                    *final(self),
                    r,
                ),
                (WriteState::Sending(packets, sent, ok), WriteEvent::Sent(true)) => old(
                    self,
                ).sent_one(contents(packets@), sent as int, ok, *final(self), r),
                (_, WriteEvent::Awake) => {
                    &&& *final(self) == (Association {
                        awake_write_loop_ch: match old(self).awake_write_loop_ch {
                            Some(_) => Some(false),
                            None => None,
                        },
                        ..*old(self)
                    })
                    &&& r.0 is Gathering
                    &&& r.1 is Gather
                },
                _ => old(self).ended_writing(*final(self), r),
            },
    {
        match event {
            WriteEvent::Gathered(packets, ok) => self.begin_sending(packets, ok),
            WriteEvent::Sent(true) => {
                if let WriteState::Sending(packets, sent, ok) = state {
                    self.count_sent(packets, sent, ok)
                } else {
                    self.end_writing()
                }
            },
            WriteEvent::Awake => {
                if self.awake_write_loop_ch.is_some() {
                    self.awake_write_loop_ch = Some(false);
                }
                (WriteState::Gathering, WriteAction::Gather)
            },
            _ => self.end_writing(),
        }
    }

    /// Whether `after` and `r` are what packets that were gathered make of the association: the
    /// first of them is sent. Where there are none, work is waited for if there will be more, and
    /// else the loop ends.
    pub open spec fn began_sending(
        &self,
        packets: Seq<Seq<u8>>,
        ok: bool,
        after: Association,
        r: (WriteState, WriteAction),
    ) -> bool {
        if packets.len() > 0 || ok {
            &&& after == *self
            &&& goes_on_sending(packets, 0, ok, r.0, r.1)
        } else {
            self.ended_writing(after, r)
        }
    }

    /// Whether `after` and `r` are what a packet that went out makes of the association, where
    /// `sent` packets went out before: it is counted, and the next one is sent. Where there is none,
    /// work is waited for if there will be more, and else the loop ends.
    pub open spec fn sent_one(
        &self,
        packets: Seq<Seq<u8>>,
        sent: int,
        ok: bool,
        after: Association,
        r: (WriteState, WriteAction),
    ) -> bool {
        let counting = Association {
            bytes_sent: counted(self.bytes_sent, packets[sent].len()),
            ..*self
        };
        if sent + 1 < packets.len() || ok {
            &&& after == counting
            &&& goes_on_sending(packets, sent + 1, ok, r.0, r.1)
        } else {
            counting.ended_writing(after, r)
        }
    }

    /// Whether `after` and `r` are what the end of the loop that sends packets makes of the
    /// association: it is closed.
    pub open spec fn ended_writing(&self, after: Association, r: (WriteState, WriteAction)) -> bool {
        &&& self.closed_into(after)
        &&& r.0 is Exited
        &&& r.1 is Exit
    }

    fn begin_sending(&mut self, packets: Vec<Bytes>, ok: bool) -> (r: (WriteState, WriteAction))
        ensures
            old(self).wf() ==> final(self).wf(),
            r.0.wf(),
            old(self).began_sending(contents(packets@), ok, *final(self), r),
    {
        if packets.len() > 0 {
            let raw: Bytes = packets[0].clone();
            return (WriteState::Sending(packets, 0, ok), WriteAction::Send(raw));
        }
        if ok {
            return (WriteState::Waiting, WriteAction::Wait);
        }
        self.end_writing()
    }

    fn count_sent(&mut self, packets: Vec<Bytes>, sent: usize, ok: bool) -> (r: (
        WriteState,
        WriteAction,
    ))
        requires
            sent < packets@.len(),
        ensures
            old(self).wf() ==> final(self).wf(),
            r.0.wf(),
            old(self).sent_one(contents(packets@), sent as int, ok, *final(self), r),
    {
        let count: usize = packets.len();
        let n: usize = packets[sent].len();
        self.bytes_sent = self.bytes_sent.wrapping_add(n);
        if sent + 1 < count {
            let raw: Bytes = packets[sent + 1].clone();
            return (WriteState::Sending(packets, sent + 1, ok), WriteAction::Send(raw));
        }
        if ok {
            return (WriteState::Waiting, WriteAction::Wait);
        }
        self.end_writing()
    }

    fn end_writing(&mut self) -> (r: (WriteState, WriteAction))
        ensures
            old(self).wf() ==> final(self).wf(),
            r.0.wf(),
            old(self).ended_writing(*final(self), r),
    {
        let _ = self.close();
        (WriteState::Exited, WriteAction::Exit)
    }
}

} // verus!
