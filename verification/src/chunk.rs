//! Chunks, the units that packets are made of.

use bytes::Bytes;
use vstd::prelude::*;

use crate::buf::{bytes_content};
use crate::time::Instant;

verus! {

/// What kind of application data a message carries.
#[derive(Debug, Clone, Copy, PartialEq, Eq, Structural)]
pub enum PayloadProtocolIdentifier {
    /// Data channel establishment messages.
    Dcep,
    /// Text.
    String,
    /// Binary data.
    Binary,
    /// An empty text.
    StringEmpty,
    /// Empty binary data.
    BinaryEmpty,
    /// Anything else.
    Unknown,
}

impl Default for PayloadProtocolIdentifier {
    fn default() -> (r: Self)
        ensures
            r == PayloadProtocolIdentifier::Unknown,
    {
        PayloadProtocolIdentifier::Unknown
    }
}

/// A DATA chunk: one fragment of a user message, with what its sender keeps about it.
#[derive(Debug)]
pub struct ChunkPayloadData {
    /// Whether the message may be delivered out of order.
    pub unordered: bool,
    /// Whether this is the first fragment of its message.
    pub beginning_fragment: bool,
    /// Whether this is the last fragment of its message.
    pub ending_fragment: bool,
    /// Whether the sender asks for an acknowledgement without delay.
    pub immediate_sack: bool,
    /// Transmission sequence number.
    pub tsn: u32,
    /// The stream that the message belongs to.
    pub stream_identifier: u16,
    /// Position of the message among the ordered messages of its stream.
    pub stream_sequence_number: u16,
    /// What the message carries.
    pub payload_type: PayloadProtocolIdentifier,
    /// The fragment itself.
    pub user_data: Bytes,
    /// Whether the peer has acknowledged the chunk.
    pub acked: bool,
    /// How often the peer has reported the chunk missing.
    pub miss_indicator: u32,
    /// When the chunk was last sent.
    pub since: Option<Instant>,
    /// How often the chunk was sent.
    pub nsent: u32,
    /// Whether the sender has given up on the message.
    pub abandoned: bool,
    /// Whether all fragments of the message are in flight.
    pub all_inflight: bool,
    /// Whether the chunk is to be sent again.
    pub retransmit: bool,
}

/// The mathematical value of a [`ChunkPayloadData`].
#[verifier::ext_equal]
pub struct DataChunk {
    pub unordered: bool,
    pub beginning_fragment: bool,
    pub ending_fragment: bool,
    pub immediate_sack: bool,
    pub tsn: u32,
    pub stream_identifier: u16,
    pub stream_sequence_number: u16,
    pub payload_type: PayloadProtocolIdentifier,
    pub user_data: Seq<u8>,
    pub acked: bool,
    pub miss_indicator: u32,
    pub since: Option<Instant>,
    pub nsent: u32,
    pub abandoned: bool,
    pub all_inflight: bool,
    pub retransmit: bool,
}

impl DataChunk {
    /// A chunk with nothing in it.
    pub open spec fn blank() -> DataChunk {
        DataChunk {
            unordered: false,
            beginning_fragment: false,
            ending_fragment: false,
            immediate_sack: false,
            tsn: 0,
            stream_identifier: 0,
            stream_sequence_number: 0,
            payload_type: PayloadProtocolIdentifier::Unknown,
            user_data: Seq::empty(),
            acked: false,
            miss_indicator: 0,
            since: None,
            nsent: 0,
            abandoned: false,
            all_inflight: false,
            retransmit: false,
        }
    }

    /// Whether the sender has given up on the message that the chunk belongs to, all of whose
    /// fragments are in flight.
    pub open spec fn given_up(self) -> bool {
        self.abandoned && self.all_inflight
    }
}

impl View for ChunkPayloadData {
    type V = DataChunk;

    open spec fn view(&self) -> DataChunk {
        DataChunk {
            unordered: self.unordered,
            beginning_fragment: self.beginning_fragment,
            ending_fragment: self.ending_fragment,
            immediate_sack: self.immediate_sack,
            tsn: self.tsn,
            stream_identifier: self.stream_identifier,
            stream_sequence_number: self.stream_sequence_number,
            payload_type: self.payload_type,
            user_data: bytes_content(self.user_data),
            acked: self.acked,
            miss_indicator: self.miss_indicator,
            since: self.since,
            nsent: self.nsent,
            abandoned: self.abandoned,
            all_inflight: self.all_inflight,
            retransmit: self.retransmit,
        }
    }
}

/// The values of a list of chunks.
pub open spec fn chunk_views(chunks: Seq<ChunkPayloadData>) -> Seq<DataChunk> {
    chunks.map_values(|c: ChunkPayloadData| c@)
}

/// The user data of a list of chunks, joined.
pub open spec fn joined_data(chunks: Seq<DataChunk>) -> Seq<u8>
    decreases chunks.len(),
{
    if chunks.len() == 0 {
        Seq::empty()
    } else {
        joined_data(chunks.drop_last()) + chunks.last().user_data
    }
}

impl Default for ChunkPayloadData {
    fn default() -> (r: Self)
        ensures
            r@ == DataChunk::blank(),
    {
        ChunkPayloadData {
            unordered: false,
            beginning_fragment: false,
            ending_fragment: false,
            immediate_sack: false,
            tsn: 0,
            stream_identifier: 0,
            stream_sequence_number: 0,
            payload_type: PayloadProtocolIdentifier::Unknown,
            user_data: Bytes::new(),
            acked: false,
            miss_indicator: 0,
            since: None,
            nsent: 0,
            abandoned: false,
            all_inflight: false,
            retransmit: false,
        }
    }
}

impl Clone for ChunkPayloadData {
    fn clone(&self) -> (r: Self)
        ensures
            r@ == self@,
    {
        ChunkPayloadData {
            unordered: self.unordered,
            beginning_fragment: self.beginning_fragment,
            ending_fragment: self.ending_fragment,
            immediate_sack: self.immediate_sack,
            tsn: self.tsn,
            stream_identifier: self.stream_identifier,
            stream_sequence_number: self.stream_sequence_number,
            payload_type: self.payload_type,
            user_data: self.user_data.clone(),
            acked: self.acked,
            miss_indicator: self.miss_indicator,
            since: self.since,
            nsent: self.nsent,
            abandoned: self.abandoned,
            all_inflight: self.all_inflight,
            retransmit: self.retransmit,
        }
    }
}

impl ChunkPayloadData {
    /// Whether the sender has given up on the message that the chunk belongs to, all of whose
    /// fragments are in flight.
    pub fn abandoned(&self) -> (r: bool)
        ensures
            r == self@.given_up(),
    {
        self.abandoned && self.all_inflight
    }
}

} // verus!
