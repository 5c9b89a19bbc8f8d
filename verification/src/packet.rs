//! Packets, and the control chunks that they carry.

use bytes::Bytes;
use vstd::prelude::*;

use crate::buf::{bytes_content};

verus! {

/// The type of a RECONFIG chunk.
pub const CT_RECONFIG: u8 = 130;

/// The type of a FORWARD-TSN chunk.
pub const CT_FORWARD_TSN: u8 = 192;

/// An INIT chunk: the offer of an association.
#[derive(Debug)]
pub struct ChunkInit {
    /// The tag that the peer is to put into its packets.
    pub initiate_tag: u32,
    /// How many bytes the sender can take before it must be read from.
    pub advertised_receiver_window_credit: u32,
    /// How many streams there may be to the peer.
    pub num_outbound_streams: u16,
    /// How many streams there may be from the peer.
    pub num_inbound_streams: u16,
    /// The first transmission sequence number.
    pub initial_tsn: u32,
    /// The types of the extension chunks that the sender understands.
    pub supported_extensions: Vec<u8>,
}

/// The mathematical value of a [`ChunkInit`].
#[verifier::ext_equal]
pub struct InitOffer {
    pub initiate_tag: u32,
    pub advertised_receiver_window_credit: u32,
    pub num_outbound_streams: u16,
    pub num_inbound_streams: u16,
    pub initial_tsn: u32,
    pub supported_extensions: Seq<u8>,
}

impl View for ChunkInit {
    type V = InitOffer;

    open spec fn view(&self) -> InitOffer {
        InitOffer {
            initiate_tag: self.initiate_tag,
            advertised_receiver_window_credit: self.advertised_receiver_window_credit,
            num_outbound_streams: self.num_outbound_streams,
            num_inbound_streams: self.num_inbound_streams,
            initial_tsn: self.initial_tsn,
            supported_extensions: self.supported_extensions@,
        }
    }
}

impl ChunkInit {
    /// Adds the extensions that this implementation supports: reconfiguration of streams, and
    /// partial reliability.
    pub fn set_supported_extensions(&mut self)
        ensures
            final(self)@ == (InitOffer {
                supported_extensions: old(self)@.supported_extensions + seq![
                    CT_RECONFIG,
                    CT_FORWARD_TSN,
                ],
                ..old(self)@
            }),
    {
        let ghost before = self.supported_extensions@;
        self.supported_extensions.push(CT_RECONFIG);
        self.supported_extensions.push(CT_FORWARD_TSN);
        assert(self.supported_extensions@ =~= before + seq![CT_RECONFIG, CT_FORWARD_TSN]);
    }
}

/// A COOKIE-ECHO chunk: the state that the peer handed out, handed back.
#[derive(Debug)]
pub struct ChunkCookieEcho {
    pub cookie: Bytes,
}

impl View for ChunkCookieEcho {
    type V = Seq<u8>;

    open spec fn view(&self) -> Seq<u8> {
        bytes_content(self.cookie)
    }
}

impl Clone for ChunkCookieEcho {
    fn clone(&self) -> (r: Self)
        ensures
            r@ == self@,
    {
        ChunkCookieEcho { cookie: self.cookie.clone() }
    }
}

/// A chunk in a packet.
#[derive(Debug)]
pub enum PacketChunk {
    Init(ChunkInit),
    CookieEcho(ChunkCookieEcho),
}

/// The mathematical value of a [`PacketChunk`].
#[verifier::ext_equal]
pub enum ChunkValue {
    Init(InitOffer),
    CookieEcho(Seq<u8>),
}

impl View for PacketChunk {
    type V = ChunkValue;

    open spec fn view(&self) -> ChunkValue {
        match self {
            PacketChunk::Init(c) => ChunkValue::Init(c@),
            PacketChunk::CookieEcho(c) => ChunkValue::CookieEcho(c@),
        }
    }
}

/// A packet: chunks under a common header.
#[derive(Debug)]
pub struct Packet {
    pub source_port: u16,
    pub destination_port: u16,
    pub verification_tag: u32,
    pub chunks: Vec<PacketChunk>,
}

/// The mathematical value of a [`Packet`].
#[verifier::ext_equal]
pub struct PacketValue {
    pub source_port: u16,
    pub destination_port: u16,
    pub verification_tag: u32,
    pub chunks: Seq<ChunkValue>,
}

impl View for Packet {
    type V = PacketValue;

    open spec fn view(&self) -> PacketValue {
        PacketValue {
            source_port: self.source_port,
            destination_port: self.destination_port,
            verification_tag: self.verification_tag,
            chunks: self.chunks@.map_values(|c: PacketChunk| c@),
        }
    }
}

/// The values of a list of packets.
pub open spec fn packet_views(packets: Seq<Packet>) -> Seq<PacketValue> {
    packets.map_values(|p: Packet| p@)
}

impl Packet {
    /// A packet with one chunk.
    pub fn with_chunk(
        source_port: u16,
        destination_port: u16,
        verification_tag: u32,
        chunk: PacketChunk,
    ) -> (r: Self)
        ensures
            r@ == (PacketValue {
                source_port,
                destination_port,
                verification_tag,
                chunks: seq![chunk@],
            }),
    {
        let mut chunks: Vec<PacketChunk> = Vec::new();
        chunks.push(chunk);
        let r = Packet { source_port, destination_port, verification_tag, chunks };
        assert(r@.chunks =~= seq![chunk@]);
        r
    }
}

} // verus!
