//! Configuration of endpoints and associations.

use std::sync::Arc;
use vstd::prelude::*;

use crate::shared::AssociationId;
use crate::util::{AidGenerator, AidGeneratorFactory, CreateRandomAidGenerator};

verus! {

/// MTU for inbound packet (from DTLS)
pub const RECEIVE_MTU: usize = 8192;

/// initial MTU for outgoing packets (to DTLS)
pub const INITIAL_MTU: u32 = 1228;

pub const INITIAL_RECV_BUF_SIZE: u32 = 1024 * 1024;

pub const COMMON_HEADER_SIZE: u32 = 12;

pub const DATA_CHUNK_HEADER_SIZE: u32 = 16;

pub const DEFAULT_MAX_MESSAGE_SIZE: u32 = 65536;

/// Config collects the arguments to create_association construction into
/// a single structure
#[derive(Debug, Clone, Copy, PartialEq, Eq, Structural)]
pub struct TransportConfig {
    pub max_receive_buffer_size: u32,
    pub max_message_size: u32,
    pub max_num_outbound_streams: u16,
    pub max_num_inbound_streams: u16,
}

/// The transport configuration where nothing else is asked for.
pub open spec fn default_transport() -> TransportConfig {
    TransportConfig {
        max_receive_buffer_size: INITIAL_RECV_BUF_SIZE,
        max_message_size: DEFAULT_MAX_MESSAGE_SIZE,
        max_num_outbound_streams: u16::MAX,
        max_num_inbound_streams: u16::MAX,
    }
}

impl Default for TransportConfig {
    fn default() -> (r: Self)
        ensures
            r == default_transport(),
    {
        TransportConfig {
            max_receive_buffer_size: INITIAL_RECV_BUF_SIZE,
            max_message_size: DEFAULT_MAX_MESSAGE_SIZE,
            max_num_outbound_streams: u16::MAX,
            max_num_inbound_streams: u16::MAX,
        }
    }
}

impl TransportConfig {
    /// Sets how many bytes may wait on the receiving side.
    pub fn max_receive_buffer_size(&mut self, value: u32) -> (r: &mut Self)
        ensures
            *r == (TransportConfig { max_receive_buffer_size: value, ..*old(self) }),
            *final(self) == *final(r),
    {
        self.max_receive_buffer_size = value;
        self
    }

    /// Sets how long a message may be.
    pub fn max_message_size(&mut self, value: u32) -> (r: &mut Self)
        ensures
            *r == (TransportConfig { max_message_size: value, ..*old(self) }),
            *final(self) == *final(r),
    {
        self.max_message_size = value;
        self
    }

    /// Sets how many streams there may be to the peer.
    pub fn max_num_outbound_streams(&mut self, value: u16) -> (r: &mut Self)
        ensures
            *r == (TransportConfig { max_num_outbound_streams: value, ..*old(self) }),
            *final(self) == *final(r),
    {
        self.max_num_outbound_streams = value;
        self
    }

    /// Sets how many streams there may be from the peer.
    pub fn max_num_inbound_streams(&mut self, value: u16) -> (r: &mut Self)
        ensures
            *r == (TransportConfig { max_num_inbound_streams: value, ..*old(self) }),
            *final(self) == *final(r),
    {
        self.max_num_inbound_streams = value;
        self
    }
}

/// The largest payload of a DATA chunk that fits a packet of the initial size.
pub open spec fn initial_max_payload_size() -> u32 {
    (INITIAL_MTU - (COMMON_HEADER_SIZE + DATA_CHUNK_HEADER_SIZE)) as u32
}

/// Global configuration for the endpoint, affecting all connections
///
/// Default values should be suitable for most internet applications.
#[derive(Clone)]
pub struct EndpointConfig {
    pub max_payload_size: u32,
    /// AID generator factory
    ///
    /// Create a aid generator for local aid in Endpoint struct
    pub aid_generator_factory: Arc<AidGeneratorFactory>,
}

impl Default for EndpointConfig {
    fn default() -> (r: Self)
        ensures
            r.max_payload_size == initial_max_payload_size(),
            forall|g: AidGenerator|
                #![trigger r.aid_generator_factory.factory.creates(g)]
                r.aid_generator_factory.factory.creates(g) == (g.generator.yields() == Set::<
                    AssociationId,
                >::full()),
    {
        Self::new()
    }
}

impl EndpointConfig {
    /// Create a default config
    ///
    /// Its identifiers are drawn at random.
    pub fn new() -> (r: Self)
        ensures
            r.max_payload_size == initial_max_payload_size(),
            forall|g: AidGenerator|
                #![trigger r.aid_generator_factory.factory.creates(g)]
                r.aid_generator_factory.factory.creates(g) == (g.generator.yields() == Set::<
                    AssociationId,
                >::full()),
    {
        let aid_factory = AidGeneratorFactory { factory: Box::new(CreateRandomAidGenerator {  }) };
        Self {
            max_payload_size: INITIAL_MTU - (COMMON_HEADER_SIZE + DATA_CHUNK_HEADER_SIZE),
            aid_generator_factory: Arc::new(aid_factory),
        }
    }

    /// Supply a custom Association ID generator factory
    ///
    /// Called once by each `Endpoint` constructed from this configuration to obtain the AID
    /// generator which will be used to generate the AIDs used for incoming packets on all
    /// associations involving that  `Endpoint`. A custom AID generator allows applications to embed
    /// information in local association IDs, e.g. to support stateless packet-level load balancers.
    ///
    /// `EndpointConfig::new()` applies a default random AID generator factory. This functions
    /// accepts any customized AID generator to reset AID generator factory that implements
    /// the `AssociationIdGenerator` trait.
    pub fn aid_generator(&mut self, factory: AidGeneratorFactory) -> (r: &mut Self)
        ensures
            r.max_payload_size == old(self).max_payload_size,
            *r.aid_generator_factory == factory,
            *final(self) == *final(r),
    {
        self.aid_generator_factory = Arc::new(factory);
        self
    }

    /// Maximum payload size accepted from peers.
    ///
    /// The default is suitable for typical internet applications. Applications which expect to run
    /// on networks supporting Ethernet jumbo frames or similar should set this appropriately.
    pub fn max_payload_size(&mut self, value: u32) -> (r: &mut Self)
        ensures
            *r == (EndpointConfig { max_payload_size: value, ..*old(self) }),
            *final(self) == *final(r),
    {
        self.max_payload_size = value;
        self
    }

    /// Get the current value of `max_payload_size`
    ///
    /// While most parameters don't need to be readable, this must be exposed to allow higher-level
    /// layers to determine how large a receive buffer to allocate to
    /// support an externally-defined `EndpointConfig`.
    ///
    /// While `get_` accessors are typically unidiomatic in Rust, we favor concision for setters,
    /// which will be used far more heavily.
    pub fn get_max_payload_size(&self) -> (r: u32)
        ensures
            r == self.max_payload_size,
    {
        self.max_payload_size
    }
}

/// Parameters governing incoming connections
///
/// Default values should be suitable for most internet applications.
#[derive(Clone, Debug)]
pub struct ServerConfig {
    /// Transport configuration to use for incoming connections
    pub transport: Arc<TransportConfig>,
}

impl Default for ServerConfig {
    fn default() -> (r: Self)
        ensures
            *r.transport == default_transport(),
    {
        Self::new()
    }
}

impl ServerConfig {
    /// Create a default config
    pub fn new() -> (r: Self)
        ensures
            *r.transport == default_transport(),
    {
        Self { transport: Arc::new(TransportConfig::default()) }
    }
}

/// Configuration for outgoing connections
///
/// Default values should be suitable for most internet applications.
#[derive(Clone, Debug)]
pub struct ClientConfig {
    /// Transport configuration to use
    pub transport: Arc<TransportConfig>,
}

impl Default for ClientConfig {
    fn default() -> (r: Self)
        ensures
            *r.transport == default_transport(),
    {
        Self::new()
    }
}

impl ClientConfig {
    /// Create a default config
    pub fn new() -> (r: Self)
        ensures
            *r.transport == default_transport(),
    {
        Self { transport: Arc::new(TransportConfig::default()) }
    }
}

/// A client configuration with nothing special in it.
pub fn client_config() -> (r: ClientConfig)
    ensures
        *r.transport == default_transport(),
{
    ClientConfig::new()
}

/// A server configuration with nothing special in it.
pub fn server_config() -> (r: ServerConfig)
    ensures
        *r.transport == default_transport(),
{
    ServerConfig::new()
}

} // verus!
