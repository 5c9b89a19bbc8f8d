//! Values that the parts of the library exchange.

use bytes::Bytes;
use vstd::prelude::*;

use crate::time::Instant;

verus! {

/// Which end of an association this is.
#[derive(Debug, Clone, Copy, PartialEq, Eq, Structural)]
pub enum Side {
    /// The initiator of the association.
    Client,
    /// The acceptor of the association.
    Server,
}

impl Default for Side {
    fn default() -> (r: Self)
        ensures
            r == Side::Client,
    {
        Side::Client
    }
}

impl Side {
    /// Whether this is the initiator.
    pub fn is_client(&self) -> (r: bool)
        ensures
            r == (*self == Side::Client),
    {
        *self == Side::Client
    }

    /// Whether this is the acceptor.
    pub fn is_server(&self) -> (r: bool)
        ensures
            r == (*self == Side::Server),
    {
        *self == Side::Server
    }
}

/// An address of the network layer, by the numeric value of its octets.
#[derive(Debug, Clone, Copy, PartialEq, Eq, Structural)]
pub enum IpAddr {
    V4(u32),
    V6(u128),
}

/// An address of the transport layer. Flow information and scope are zero where the network layer
/// has none.
#[derive(Debug, Clone, Copy, PartialEq, Eq, Structural)]
pub struct SocketAddr {
    pub ip: IpAddr,
    pub port: u16,
    pub flowinfo: u32,
    pub scope_id: u32,
}

impl SocketAddr {
    /// The address with that port on that host.
    pub fn new(ip: IpAddr, port: u16) -> (r: Self)
        ensures
            r == (SocketAddr { ip, port, flowinfo: 0, scope_id: 0 }),
    {
        SocketAddr { ip, port, flowinfo: 0, scope_id: 0 }
    }

    /// The port of the address.
    pub fn port(&self) -> (r: u16)
        ensures
            r == self.port,
    {
        self.port
    }
}

/// What a datagram says about congestion on its way.
#[derive(Debug, Clone, Copy, PartialEq, Eq, Structural)]
pub enum EcnCodepoint {
    Ect0,
    Ect1,
    Ce,
}

/// What goes out in one transmission.
#[derive(Debug)]
pub enum Payload {
    /// Encoded packets.
    RawEncode(Vec<Bytes>),
}

/// A transmission: packets, and where they go.
#[derive(Debug)]
pub struct Transmit {
    /// When the transmission was produced.
    pub now: Instant,
    /// Where the packets go.
    pub remote: SocketAddr,
    /// What to mark the packets with.
    pub ecn: Option<EcnCodepoint>,
    /// Where the packets come from, where that matters.
    pub local_ip: Option<IpAddr>,
    /// The packets.
    pub payload: Payload,
}

/// Names an association in the packets that its peer sends.
pub type AssociationId = u32;

/// An identifier given out for an association, with its place in the order of issue.
#[derive(Debug, Clone, Copy, PartialEq, Eq, Structural)]
pub struct IssuedAid {
    pub sequence: u64,
    pub id: AssociationId,
}

/// What an endpoint has to tell an association.
#[derive(Debug)]
pub enum AssociationEventInner {
    /// A datagram arrived for the association.
    Datagram(Transmit),
    /// Identifiers were given out for the association.
    NewIdentifiers(Vec<IssuedAid>, Instant),
}

/// An event for an association, produced by its endpoint.
#[derive(Debug)]
pub struct AssociationEvent(pub AssociationEventInner);

/// What an association has to tell its endpoint.
#[derive(Debug, Clone, Copy, PartialEq, Eq, Structural)]
pub enum EndpointEventInner {
    /// The association needs that many more identifiers.
    NeedIdentifiers(Instant, u64),
    /// The peer does not use the identifier with that sequence number any more; whether it may get
    /// another one.
    RetireAssociationId(Instant, u64, bool),
    /// The association is gone.
    Drained,
}

/// An event for an endpoint, produced by one of its associations.
#[derive(Debug, Clone, Copy, PartialEq, Eq, Structural)]
pub struct EndpointEvent(pub EndpointEventInner);

impl EndpointEvent {
    /// The event of an association that is gone.
    pub fn drained() -> (r: Self)
        ensures
            r.0 == EndpointEventInner::Drained,
    {
        EndpointEvent(EndpointEventInner::Drained)
    }
}

} // verus!
