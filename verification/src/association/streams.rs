//! The streams of an association.

use vstd::prelude::*;

use crate::association::internal::{closed_stream, lists_streams, stream_views, woken};
use crate::association::state::AssociationState;
use crate::association::timer::TIMER_COUNT;
use crate::association::Association;
use crate::chunk::{chunk_views, ChunkPayloadData, DataChunk, PayloadProtocolIdentifier};
use crate::error::Error;
use crate::stream::handle::Stream;
use crate::stream::state::{StreamModel, StreamState};
use crate::time::Instant;

verus! {

/// The chunk that ends a stream: whole, and without data.
pub open spec fn end_of_stream(stream_identifier: u16) -> DataChunk {
    DataChunk {
        stream_identifier,
        beginning_fragment: true,
        ending_fragment: true,
        ..DataChunk::blank()
    }
}

impl Association {
    /// Whether `after` is the association once it was closed: its timers do not run, the loops that
    /// read and write its packets are to end, and its streams are closed and put aside. One that is
    /// closed already stays as it is.
    pub open spec fn closed_into(&self, after: Association) -> bool {
        if self.state == AssociationState::Closed {
            after == *self
        } else {
            &&& after == (Association {
                state: AssociationState::Closed,
                timers: after.timers,
                loops_open: false,
                streams: after.streams,
                retired: after.retired,
                ..*self
            })
            &&& after.timers@ == Seq::new(TIMER_COUNT as nat, |i: int| None::<Instant>)
            &&& after.streams@ == Map::<u16, StreamState>::empty()
            &&& exists|ids: Seq<u16>| #[trigger]
                lists_streams(ids, self.streams@) && stream_views(after.retired@) == stream_views(
                    self.retired@,
                ) + retired_in_order(ids, self.streams@)
        }
    }

    /// unregister_stream un-registers a stream from the association
    ///
    /// It is closed, and put aside for those who wait on it.
    pub fn unregister_stream(&mut self, stream_identifier: u16)
        ensures
            *final(self) == (Association {
                streams: final(self).streams,
                retired: final(self).retired,
                ..*old(self)
            }),
            final(self).streams@ == old(self).streams@.remove(stream_identifier),
            stream_views(final(self).retired@) == (if old(self).streams@.contains_key(
                stream_identifier,
            ) {
                stream_views(old(self).retired@).push(
                    closed_stream(old(self).streams@[stream_identifier]@),
                )
            } else {
                stream_views(old(self).retired@)
            }),
    {
        broadcast use vstd::std_specs::hash::group_hash_axioms;

        let removed: Option<StreamState> = self.streams.remove(&stream_identifier);
        if let Some(s) = removed {
            let mut s: StreamState = s;
            s.closed = true;
            let ghost before = stream_views(self.retired@);
            self.retired.push(s);
            assert(stream_views(self.retired@) =~= before.push(s@));
        }
    }

    /// The identifiers of the streams, in no particular order.
    pub fn stream_identifiers(&self) -> (r: Vec<u16>)
        ensures
            lists_streams(r@, self.streams@),
    {
        broadcast use vstd::std_specs::hash::group_hash_axioms;

        let ghost all = vstd::std_specs::iter::IteratorSpec::remaining(
            &vstd::std_specs::hash::spec_keys_iter(&self.streams),
        );
        let mut ids: Vec<u16> = Vec::new();
        for id in iter: self.streams.keys()
            invariant
                iter.seq() == all,
                ids@ == all.unref().take(iter.index()),
        {
            ids.push(*id);
        }
        proof {
            assert(ids@ =~= all.unref());
            assert forall|i: int, j: int| 0 <= i < ids@.len() && 0 <= j < ids@.len() && i
                != j implies ids@[i] != ids@[j] by {
                assert(all[i] != all[j]);
            }
            assert forall|id: u16| #[trigger] ids@.contains(id) <==> self.streams@.contains_key(
                id,
            ) by {
                assert(ids@.to_set().contains(id) <==> ids@.contains(id));
            }
        }
        ids
    }

    /// Closes the association: its timers are stopped, the loops that read and write its packets
    /// end, and its streams are closed. An association that is closed already stays as it is.
    pub fn close(&mut self) -> (r: Result<(), Error>)
        ensures
            r == Ok::<(), Error>(()),
            old(self).wf() ==> final(self).wf(),
            old(self).closed_into(*final(self)),
    {
        if self.get_state() == AssociationState::Closed {
            return Ok(());
        }
        let ghost streams = self.streams@;
        let ghost retired = stream_views(self.retired@);
        self.set_state(AssociationState::Closed);
        self.close_all_timers();
        self.loops_open = false;
        let ghost base = *self;

        let ids: Vec<u16> = self.stream_identifiers();
        let mut i: usize = 0;
        assert(retired + retired_in_order(ids@.take(0), streams) =~= retired);
        while i < ids.len()
            invariant
                i <= ids.len(),
                lists_streams(ids@, streams),
                *self == (Association { streams: self.streams, retired: self.retired, ..base }),
                forall|id: u16| #[trigger]
                    self.streams@.contains_key(id) <==> streams.contains_key(id)
                        && !ids@.take(i as int).contains(id),
                forall|id: u16| #[trigger]
                    self.streams@.contains_key(id) ==> self.streams@[id] == streams[id],
                stream_views(self.retired@) == retired + retired_in_order(
                    ids@.take(i as int),
                    streams,
                ),
            decreases ids.len() - i,
        {
            let ghost done = ids@.take(i as int);
            let ghost id = ids@[i as int];
            proof {
                assert(ids@.contains(id));
                assert(!done.contains(id));
                assert(ids@.take(i + 1) =~= done.push(id));
            }
            self.unregister_stream(ids[i]);
            proof {
                assert(retired_in_order(done.push(id), streams) =~= retired_in_order(
                    done,
                    streams,
                ).push(closed_stream(streams[id]@)));
                assert forall|x: u16| done.push(id).contains(x) <==> done.contains(x) || x == id by {
                    if done.contains(x) {
                        let j = choose|j: int| 0 <= j < done.len() && done[j] == x;
                        assert(done.push(id)[j] == x);
                    }
                    if x == id {
                        assert(done.push(id)[done.len() as int] == x);
                    }
                }
                assert(stream_views(self.retired@) =~= retired + retired_in_order(
                    done.push(id),
                    streams,
                ));
            }
            i += 1;
        }
        proof {
            assert(ids@.take(i as int) =~= ids@);
            assert(self.streams@ =~= Map::<u16, StreamState>::empty());
        }
        Ok(())
    }

    /// Opens a stream, unless one with that identifier is open.
    pub fn open_stream<'a>(
        &'a mut self,
        stream_identifier: u16,
        default_payload_type: PayloadProtocolIdentifier,
    ) -> (r: Result<Stream<'a>, Error>)
        ensures
            match r {
                Ok(s) => {
                    &&& !old(self).streams@.contains_key(stream_identifier)
                    &&& s.stream_identifier == stream_identifier
                    &&& old(self).wf() ==> s.association.wf()
                    &&& *s.association == (Association {
                        streams: s.association.streams,
                        ..*old(self)
                    })
                    &&& s.association.streams@ == old(self).streams@.insert(
                        stream_identifier,
                        s.association.streams@[stream_identifier],
                    )
                    &&& s.association.streams@[stream_identifier]@ == StreamModel::opened(
                        old(self).side,
                        stream_identifier,
                        old(self).max_payload_size,
                        default_payload_type,
                    )
                    &&& *final(self) == *final(s.association)
                },
                Err(e) => {
                    &&& old(self).streams@.contains_key(stream_identifier)
                    &&& e == Error::ErrStreamAlreadyExist
                    &&& *final(self) == *old(self)
                },
            },
    {
        broadcast use vstd::std_specs::hash::group_hash_axioms;

        if self.streams.contains_key(&stream_identifier) {
            return Err(Error::ErrStreamAlreadyExist);
        }
        let mut s = StreamState::new(
            self.side,
            stream_identifier,
            self.max_payload_size,
            PayloadProtocolIdentifier::Unknown,
        );
        s.set_default_payload_type(default_payload_type);
        self.streams.insert(stream_identifier, s);
        Ok(Stream { stream_identifier, association: self })
    }

    /// The stream with that identifier, if it is open.
    pub fn stream<'a>(&'a mut self, stream_identifier: u16) -> (r: Result<Stream<'a>, Error>)
        ensures
            match r {
                Ok(s) => {
                    &&& old(self).streams@.contains_key(stream_identifier)
                    &&& s.stream_identifier == stream_identifier
                    &&& *s.association == *old(self)
                    &&& *final(self) == *final(s.association)
                },
                Err(e) => {
                    &&& !old(self).streams@.contains_key(stream_identifier)
                    &&& e == Error::ErrStreamNotExisted
                    &&& *final(self) == *old(self)
                },
            },
    {
        broadcast use vstd::std_specs::hash::group_hash_axioms;

        if !self.streams.contains_key(&stream_identifier) {
            return Err(Error::ErrStreamNotExisted);
        }
        Ok(Stream { stream_identifier, association: self })
    }

    /// Queues chunks with payload data for sending. Only an established association sends data.
    pub fn send_payload_data(&mut self, chunks: Vec<ChunkPayloadData>) -> (r: Result<(), Error>)
        ensures
            old(self).state != AssociationState::Established ==> {
                &&& r == Err::<(), Error>(Error::ErrPayloadDataStateNotExist)
                &&& *final(self) == *old(self)
            },
            old(self).state == AssociationState::Established ==> {
                &&& r == Ok::<(), Error>(())
                &&& *final(self) == (Association {
                    pending_queue: final(self).pending_queue,
                    awake_write_loop_ch: woken(old(self).awake_write_loop_ch),
                    ..*old(self)
                })
                &&& final(self).pending_queue@ == old(self).pending_queue@ + chunks@
            },
    {
        if self.get_state() != AssociationState::Established {
            return Err(Error::ErrPayloadDataStateNotExist);
        }
        let ghost all = chunks@;
        let ghost before = self.pending_queue@;
        let mut rest: Vec<ChunkPayloadData> = chunks;
        assert(before + all.take(0) =~= before);
        assert(all.skip(0) =~= all);
        let ghost mut k: int = 0;
        while rest.len() > 0
            invariant
                0 <= k <= all.len(),
                rest@ == all.skip(k),
                self.pending_queue@ == before + all.take(k),
                *self == (Association { pending_queue: self.pending_queue, ..*old(self) }),
            decreases rest.len(),
        {
            let chunk: ChunkPayloadData = rest.remove(0);
            self.pending_queue.push_back(chunk);
            proof {
                assert(rest@ =~= all.skip(k + 1));
                assert(self.pending_queue@ =~= before + all.take(k + 1));
                k = k + 1;
            }
        }
        assert(all.take(k) =~= all);
        self.awake_write_loop();
        Ok(())
    }

    /// Asks for the reset of a stream: a chunk without data is queued that marks its end. Only an
    /// established association resets streams.
    pub fn send_reset_request(&mut self, stream_identifier: u16) -> (r: Result<(), Error>)
        ensures
            old(self).state != AssociationState::Established ==> {
                &&& r == Err::<(), Error>(Error::ErrResetPacketInStateNotExist)
                &&& *final(self) == *old(self)
            },
            old(self).state == AssociationState::Established ==> {
                &&& r == Ok::<(), Error>(())
                &&& *final(self) == (Association {
                    pending_queue: final(self).pending_queue,
                    awake_write_loop_ch: woken(old(self).awake_write_loop_ch),
                    ..*old(self)
                })
                &&& chunk_views(final(self).pending_queue@) == chunk_views(
                    old(self).pending_queue@,
                ).push(end_of_stream(stream_identifier))
            },
    {
        if self.get_state() != AssociationState::Established {
            return Err(Error::ErrResetPacketInStateNotExist);
        }
        let chunk = ChunkPayloadData {
            stream_identifier,
            beginning_fragment: true,
            ending_fragment: true,
            ..Default::default()
        };
        assert(chunk@ =~= end_of_stream(stream_identifier));
        let ghost before = chunk_views(self.pending_queue@);
        self.pending_queue.push_back(chunk);
        assert(chunk_views(self.pending_queue@) =~= before.push(chunk@));
        self.awake_write_loop();
        Ok(())
    }
}

/// The streams of a map, closed, in the order of their identifiers in a list.
pub open spec fn retired_in_order(ids: Seq<u16>, streams: Map<u16, StreamState>) -> Seq<
    StreamModel,
> {
    ids.map_values(|id: u16| closed_stream(streams[id]@))
}

/// An association that was closed has no streams and no timers that run, and closing it again has no
/// effect.
pub proof fn law_closed_association_is_at_rest(before: Association, mid: Association, after: Association)
    requires
        before.closed_into(mid),
        mid.closed_into(after),
    ensures
        mid.state == AssociationState::Closed,
        after == mid,
        before.state != AssociationState::Closed ==> !mid.loops_open && mid.streams@.dom()
            =~= Set::<u16>::empty() && (forall|i: int|
            0 <= i < TIMER_COUNT ==> (#[trigger] mid.timers@[i]) is None),
{
}

} // verus!
