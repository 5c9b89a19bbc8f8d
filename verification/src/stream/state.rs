//! What an association keeps of each of its streams.

use bytes::Bytes;
use vstd::prelude::*;

use crate::buf::{bytes_content, bytes_slice};
use crate::chunk::{chunk_views, ChunkPayloadData, DataChunk, PayloadProtocolIdentifier};
use crate::queue::reassembly_queue::{ReassemblyQueue, ReassemblyState};
use crate::shared::Side;

verus! {

/// Application events about streams
#[derive(Debug, Clone, Copy, PartialEq, Eq, Structural)]
pub enum StreamEvent {
    /// One or more new streams has been opened
    Opened,
    /// A currently open stream has data or errors waiting to be read
    Readable {
        /// Which stream is now readable
        id: u16,
    },
    /// A formerly write-blocked stream might be ready for a write or have been stopped
    ///
    /// Only generated for streams that are currently open.
    Writable {
        /// Which stream is now writable
        id: u16,
    },
    /// A finished stream has been fully acknowledged or stopped
    Finished {
        /// Which stream has been finished
        id: u16,
    },
    /// The peer asked us to stop sending on an outgoing stream
    Stopped {
        /// Which stream has been stopped
        id: u16,
        /// Error code supplied by the peer
        error_code: u16,
    },
    /// At least one new stream of a certain directionality may be opened
    Available,
}

/// How hard the sender of a stream tries to get a message across.
#[derive(Debug, Clone, Copy, PartialEq, Eq, Structural)]
pub enum ReliabilityType {
    /// Retransmission until the message arrives.
    Reliable,
    /// Partial reliability by retransmission count.
    Rexmit,
    /// Partial reliability by retransmission duration.
    Timed,
}

impl Default for ReliabilityType {
    fn default() -> (r: Self)
        ensures
            r == ReliabilityType::Reliable,
    {
        ReliabilityType::Reliable
    }
}

/// The reliability type that a number stands for; numbers without a meaning stand for full
/// reliability.
pub open spec fn reliability_of(v: u8) -> ReliabilityType {
    if v == 1 {
        ReliabilityType::Rexmit
    } else if v == 2 {
        ReliabilityType::Timed
    } else {
        ReliabilityType::Reliable
    }
}

impl From<u8> for ReliabilityType {
    fn from(v: u8) -> (r: ReliabilityType) {
        match v {
            1 => ReliabilityType::Rexmit,
            2 => ReliabilityType::Timed,
            _ => ReliabilityType::Reliable,
        }
    }
}

impl vstd::std_specs::convert::FromSpecImpl<u8> for ReliabilityType {
    open spec fn obeys_from_spec() -> bool {
        true
    }

    open spec fn from_spec(v: u8) -> ReliabilityType {
        reliability_of(v)
    }
}

impl ReliabilityType {
    /// The name of the reliability type.
    pub open spec fn name(self) -> Seq<char> {
        match self {
            ReliabilityType::Reliable => "Reliable"@,
            ReliabilityType::Rexmit => "Rexmit"@,
            ReliabilityType::Timed => "Timed"@,
        }
    }

    /// The number that stands for the reliability type.
    pub open spec fn code(self) -> u8 {
        match self {
            ReliabilityType::Reliable => 0,
            ReliabilityType::Rexmit => 1,
            ReliabilityType::Timed => 2,
        }
    }

    /// The name of the reliability type, for display.
    pub fn as_str(&self) -> (r: &'static str)
        ensures
            r@ == self.name(),
    {
        match *self {
            ReliabilityType::Reliable => "Reliable",
            ReliabilityType::Rexmit => "Rexmit",
            ReliabilityType::Timed => "Timed",
        }
    }
}

/// Every reliability type is the one that its number stands for.
pub proof fn law_reliability_code(t: ReliabilityType)
    ensures
        reliability_of(t.code()) == t,
{
}

/// The mathematical value of a [`StreamState`].
#[verifier::ext_equal]
pub struct StreamModel {
    pub side: Side,
    pub max_payload_size: u32,
    pub stream_identifier: u16,
    pub default_payload_type: PayloadProtocolIdentifier,
    pub reassembly: ReassemblyState,
    pub sequence_number: u16,
    pub closed: bool,
    pub unordered: bool,
    pub reliability_type: ReliabilityType,
    pub reliability_value: u32,
    pub buffered_amount: nat,
    pub buffered_amount_low: nat,
}

/// The smaller of two numbers.
pub open spec fn min_of(a: int, b: int) -> int {
    if a <= b {
        a
    } else {
        b
    }
}

/// How many fragments of at most `max` bytes a message of `len` bytes takes.
pub open spec fn fragment_count(len: nat, max: nat) -> nat {
    if len == 0 {
        0
    } else {
        ((len - 1) / max as int + 1) as nat
    }
}

impl StreamModel {
    /// A stream that has just been opened.
    pub open spec fn opened(
        side: Side,
        stream_identifier: u16,
        max_payload_size: u32,
        default_payload_type: PayloadProtocolIdentifier,
    ) -> StreamModel {
        StreamModel {
            side,
            max_payload_size,
            stream_identifier,
            default_payload_type,
            reassembly: ReassemblyState::fresh(stream_identifier),
            sequence_number: 0,
            closed: false,
            unordered: false,
            reliability_type: ReliabilityType::Reliable,
            reliability_value: 0,
            buffered_amount: 0,
            buffered_amount_low: 0,
        }
    }

    /// Whether a message goes out unordered: messages that set up data channels never do.
    pub open spec fn sends_unordered(self, ppi: PayloadProtocolIdentifier) -> bool {
        ppi != PayloadProtocolIdentifier::Dcep && self.unordered
    }

    /// Fragment `i` of a message: the bytes from `i` times the maximal payload size on, as many as
    /// fit.
    pub open spec fn fragment(
        self,
        raw: Seq<u8>,
        ppi: PayloadProtocolIdentifier,
        i: int,
    ) -> DataChunk {
        let begin = i * self.max_payload_size;
        let end = min_of(begin + self.max_payload_size, raw.len() as int);
        DataChunk {
            stream_identifier: self.stream_identifier,
            user_data: raw.subrange(begin, end),
            unordered: self.sends_unordered(ppi),
            beginning_fragment: i == 0,
            ending_fragment: end == raw.len(),
            payload_type: ppi,
            stream_sequence_number: self.sequence_number,
            ..DataChunk::blank()
        }
    }

    /// The fragments of a message, in order.
    pub open spec fn fragments(
        self,
        raw: Seq<u8>,
        ppi: PayloadProtocolIdentifier,
    ) -> Seq<DataChunk> {
        Seq::new(
            fragment_count(raw.len(), self.max_payload_size as nat),
            |i: int| self.fragment(raw, ppi, i),
        )
    }

    /// The stream after a message was handed over for sending: its bytes are buffered, and an
    /// ordered message takes up a sequence number.
    pub open spec fn after_packetize(
        self,
        raw: Seq<u8>,
        ppi: PayloadProtocolIdentifier,
    ) -> StreamModel {
        StreamModel {
            sequence_number: if self.sends_unordered(ppi) {
                self.sequence_number
            } else {
                ((self.sequence_number + 1) % 0x1_0000) as u16
            },
            buffered_amount: self.buffered_amount + raw.len(),
            ..self
        }
    }

    /// The stream after that many of its bytes were delivered.
    pub open spec fn after_release(self, n: int) -> StreamModel {
        StreamModel {
            buffered_amount: if n <= 0 {
                self.buffered_amount
            } else if self.buffered_amount <= n {
                0
            } else {
                (self.buffered_amount - n) as nat
            },
            ..self
        }
    }
}

/// Stream represents an SCTP stream
#[derive(Debug)]
pub struct StreamState {
    pub side: Side,
    pub max_payload_size: u32,
    pub stream_identifier: u16,
    pub default_payload_type: PayloadProtocolIdentifier,
    pub reassembly_queue: ReassemblyQueue,
    pub sequence_number: u16,
    pub closed: bool,
    pub unordered: bool,
    pub reliability_type: ReliabilityType,
    pub reliability_value: u32,
    pub buffered_amount: usize,
    pub buffered_amount_low: usize,
}

impl View for StreamState {
    type V = StreamModel;

    open spec fn view(&self) -> StreamModel {
        StreamModel {
            side: self.side,
            max_payload_size: self.max_payload_size,
            stream_identifier: self.stream_identifier,
            default_payload_type: self.default_payload_type,
            reassembly: self.reassembly_queue@,
            sequence_number: self.sequence_number,
            closed: self.closed,
            unordered: self.unordered,
            reliability_type: self.reliability_type,
            reliability_value: self.reliability_value,
            buffered_amount: self.buffered_amount as nat,
            buffered_amount_low: self.buffered_amount_low as nat,
        }
    }
}

impl Default for StreamState {
    fn default() -> (r: Self)
        ensures
            r.wf(),
            r@ == StreamModel::opened(Side::Client, 0, 0, PayloadProtocolIdentifier::Unknown),
    {
        StreamState::new(Side::Client, 0, 0, PayloadProtocolIdentifier::Unknown)
    }
}

/// Fragments before the last are full, and the last ends where the message ends.
pub proof fn lemma_fragment_bounds(len: nat, max: nat, k: nat)
    requires
        max > 0,
        k * max < len,
    ensures
        k < fragment_count(len, max),
        (k + 1) * max == k * max + max,
        k * max + max >= len ==> k + 1 == fragment_count(len, max),
        k * max + max < len ==> k + 1 < fragment_count(len, max),
{
    assert((k + 1) * max == k * max + max) by (nonlinear_arith);
    assert(k * max <= len - 1 ==> k <= (len - 1) / (max as int)) by (nonlinear_arith)
        requires
            max > 0,
    ;
    assert(k * max + max >= len ==> (len - 1) / (max as int) <= k) by (nonlinear_arith)
        requires
            max > 0,
            len > 0,
    ;
    assert(k * max + max <= len - 1 ==> k + 1 <= (len - 1) / (max as int)) by (nonlinear_arith)
        requires
            max > 0,
    ;
}

impl StreamState {
    /// Whether the reassembly queue is well formed.
    pub open spec fn wf(&self) -> bool {
        self.reassembly_queue.wf()
    }

    /// A stream that has just been opened.
    pub fn new(
        side: Side,
        stream_identifier: u16,
        max_payload_size: u32,
        default_payload_type: PayloadProtocolIdentifier,
    ) -> (r: Self)
        ensures
            r.wf(),
            r@ == StreamModel::opened(
                side,
                stream_identifier,
                max_payload_size,
                default_payload_type,
            ),
    {
        StreamState {
            side,
            stream_identifier,
            max_payload_size,
            default_payload_type,
            reassembly_queue: ReassemblyQueue::new(stream_identifier),
            sequence_number: 0,
            closed: false,
            unordered: false,
            reliability_type: ReliabilityType::Reliable,
            reliability_value: 0,
            buffered_amount: 0,
            buffered_amount_low: 0,
        }
    }

    /// stream_identifier returns the Stream identifier associated to the stream.
    pub fn stream_identifier(&self) -> (r: u16)
        ensures
            r == self@.stream_identifier,
    {
        self.stream_identifier
    }

    /// set_default_payload_type sets the default payload type used by write.
    pub fn set_default_payload_type(&mut self, default_payload_type: PayloadProtocolIdentifier)
        ensures
            *final(self) == (StreamState { default_payload_type, ..*old(self) }),
    {
        self.default_payload_type = default_payload_type;
    }

    /// set_reliability_params sets reliability parameters for this stream.
    pub fn set_reliability_params(&mut self, unordered: bool, rel_type: ReliabilityType, rel_val: u32)
        ensures
            *final(self) == (StreamState {
                unordered,
                reliability_type: rel_type,
                reliability_value: rel_val,
                ..*old(self)
            }),
    {
        self.unordered = unordered;
        self.reliability_type = rel_type;
        self.reliability_value = rel_val;
    }

    /// Stores a chunk that has arrived on the stream.
    pub fn handle_data(&mut self, pd: &ChunkPayloadData)
        requires
            old(self).wf(),
            old(self)@.reassembly.held_bytes() + pd@.user_data.len() <= usize::MAX,
        ensures
            final(self).wf(),
            final(self)@ == (StreamModel {
                reassembly: old(self)@.reassembly.pushed(pd@),
                ..old(self)@
            }),
    {
        let _ = self.reassembly_queue.push(pd.clone());
    }

    /// Gives up the ordered messages up to `ssn`; a stream that sends unordered is left alone.
    pub fn handle_forward_tsn_for_ordered(&mut self, ssn: u16)
        requires
            old(self).wf(),
        ensures
            final(self).wf(),
            final(self)@ == (if old(self)@.unordered {
                old(self)@
            } else {
                StreamModel {
                    reassembly: old(self)@.reassembly.after_forward_ordered(ssn),
                    ..old(self)@
                }
            }),
    {
        if self.unordered {
            return;
        }
        self.reassembly_queue.forward_tsn_for_ordered(ssn);
    }

    /// Gives up the fragments of unordered messages up to `new_cumulative_tsn`; a stream that sends
    /// in order is left alone.
    pub fn handle_forward_tsn_for_unordered(&mut self, new_cumulative_tsn: u32)
        requires
            old(self).wf(),
        ensures
            final(self).wf(),
            final(self)@ == (if !old(self)@.unordered {
                old(self)@
            } else {
                StreamModel {
                    reassembly: old(self)@.reassembly.after_forward_unordered(new_cumulative_tsn),
                    ..old(self)@
                }
            }),
    {
        if !self.unordered {
            return;
        }
        self.reassembly_queue.forward_tsn_for_unordered(new_cumulative_tsn);
    }

    /// Cuts a message into chunks that fit, and buffers it.
    pub fn packetize(&mut self, raw: &Bytes, ppi: PayloadProtocolIdentifier) -> (r: Vec<
        ChunkPayloadData,
    >)
        requires
            old(self).max_payload_size > 0 || bytes_content(*raw).len() == 0,
            old(self)@.buffered_amount + bytes_content(*raw).len() <= usize::MAX,
        ensures
            final(self).reassembly_queue == old(self).reassembly_queue,
            final(self)@ == old(self)@.after_packetize(bytes_content(*raw), ppi),
            chunk_views(r@) == old(self)@.fragments(bytes_content(*raw), ppi),
    {
        let ghost data = bytes_content(*raw);
        let ghost max = self.max_payload_size as nat;
        let ghost model = self@;
        let ghost count = fragment_count(data.len(), max);
        let ghost mut k: nat = 0;
        let mut i: usize = 0;
        let len: usize = raw.len();
        let mut remaining: usize = len;

        // Messages of the data channel establishment protocol are sent in order and reliably.
        let unordered: bool = ppi != PayloadProtocolIdentifier::Dcep && self.unordered;

        let mut chunks: Vec<ChunkPayloadData> = Vec::new();
        assert(0 * max == 0) by (nonlinear_arith);
        assert(chunk_views(chunks@) =~= model.fragments(data, ppi).take(0));
        while remaining != 0
            invariant
                self@ == model,
                *self == *old(self),
                model == old(self)@,
                data == bytes_content(*raw),
                max == self.max_payload_size,
                max > 0 || data.len() == 0,
                count == fragment_count(data.len(), max),
                unordered == model.sends_unordered(ppi),
                len == data.len(),
                remaining == len - i,
                remaining != 0 ==> i == k * max,
                k <= count,
                k == count <==> remaining == 0,
                chunk_views(chunks@) == model.fragments(data, ppi).take(k as int),
            decreases remaining,
        {
            proof {
                lemma_fragment_bounds(data.len(), max, k);
            }
            let max_payload_size: usize = self.max_payload_size as usize;
            let fragment_size: usize = if max_payload_size <= remaining {
                max_payload_size
            } else {
                remaining
            };

            let user_data: Bytes = bytes_slice(raw, i, i + fragment_size);

            let chunk = ChunkPayloadData {
                stream_identifier: self.stream_identifier,
                user_data,
                unordered,
                beginning_fragment: i == 0,
                ending_fragment: remaining - fragment_size == 0,
                immediate_sack: false,
                payload_type: ppi,
                stream_sequence_number: self.sequence_number,
                abandoned: false,
                all_inflight: false,
                ..Default::default()
            };

            let ghost before = chunk_views(chunks@);
            proof {
                assert(i == 0 <==> k == 0) by (nonlinear_arith)
                    requires
                        i == k * max,
                        max > 0,
                ;
                assert(chunk@ =~= model.fragment(data, ppi, k as int));
            }
            chunks.push(chunk);

            remaining -= fragment_size;
            i += fragment_size;
            proof {
                assert(chunk_views(chunks@) =~= before.push(chunk@));
                k = k + 1;
                assert(before.push(chunk@) =~= model.fragments(data, ppi).take(k as int));
            }
        }
        assert(model.fragments(data, ppi).take(count as int) =~= model.fragments(data, ppi));

        // Unordered messages do not take up a stream sequence number.
        if !unordered {
            self.sequence_number = self.sequence_number.wrapping_add(1);
        }

        self.buffered_amount += len;

        chunks
    }

    /// buffered_amount returns the number of bytes of data currently queued to be sent over this stream.
    pub fn buffered_amount(&self) -> (r: usize)
        ensures
            r == self@.buffered_amount,
    {
        self.buffered_amount
    }

    /// buffered_amount_low_threshold returns the number of bytes of buffered outgoing data that is
    /// considered "low." Defaults to 0.
    pub fn buffered_amount_low_threshold(&self) -> (r: usize)
        ensures
            r == self@.buffered_amount_low,
    {
        self.buffered_amount_low
    }

    /// set_buffered_amount_low_threshold is used to update the threshold.
    /// See buffered_amount_low_threshold().
    pub fn set_buffered_amount_low_threshold(&mut self, th: usize)
        ensures
            *final(self) == (StreamState { buffered_amount_low: th, ..*old(self) }),
    {
        self.buffered_amount_low = th;
    }

    /// Notes that so many bytes of outgoing data have been delivered to the peer. More than are
    /// buffered count as all that are.
    pub fn on_buffer_released(&mut self, n_bytes_released: i64)
        ensures
            *final(self) == (StreamState {
                buffered_amount: final(self).buffered_amount,
                ..*old(self)
            }),
            final(self)@ == old(self)@.after_release(n_bytes_released as int),
    {
        if n_bytes_released <= 0 {
            return;
        }
        if (self.buffered_amount as u64) < n_bytes_released as u64 {
            self.buffered_amount = 0;
        } else {
            self.buffered_amount -= n_bytes_released as usize;
        }
    }

    /// The number of bytes of user data that wait in the reassembly queue.
    pub fn get_num_bytes_in_reassembly_queue(&self) -> (r: usize)
        requires
            self.wf(),
        ensures
            r == self@.reassembly.held_bytes(),
    {
        self.reassembly_queue.get_num_bytes()
    }
}

} // verus!
