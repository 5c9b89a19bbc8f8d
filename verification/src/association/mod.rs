//! Associations.

pub mod abandon;
pub mod internal;
pub mod laws;
pub mod loops;
pub mod poll;
pub mod state;
pub mod streams;
pub mod stats;
pub mod timer;

use std::collections::{HashMap, VecDeque};
use std::sync::Arc;
use vstd::prelude::*;

use crate::association::state::{AckMode, AckState, AssociationState};
use crate::association::stats::AssociationStats;
use crate::association::timer::{TimerTable, TIMER_COUNT};
use crate::chunk::{ChunkPayloadData, DataChunk};
use crate::config::{
    initial_max_payload_size, ServerConfig, TransportConfig, COMMON_HEADER_SIZE,
    DATA_CHUNK_HEADER_SIZE, INITIAL_MTU,
};
use crate::error::Error;
use crate::packet::{
    packet_views, ChunkCookieEcho, ChunkInit, ChunkValue, InitOffer, Packet, PacketChunk,
    PacketValue, CT_FORWARD_TSN, CT_RECONFIG,
};
use crate::queue::payload_queue::PayloadQueue;
use crate::shared::{AssociationId, EndpointEvent, IpAddr, Side, SocketAddr, Transmit};
use crate::stream::state::{StreamEvent, StreamState};
use crate::time::Instant;
use crate::util::{random_u32, AidGenerator};

verus! {

/// Why an association ended.
#[derive(Debug, Clone, Copy, PartialEq, Eq, Structural)]
pub enum AssociationError {
    /// The peer closed the association, with an error code of the application.
    ApplicationClosed { error_code: u16 },
    /// The peer reset the association.
    Reset,
    /// The peer did not answer in time.
    TimedOut,
    /// This side closed the association.
    LocallyClosed,
}

/// What an association has to tell the application.
#[derive(Debug, Clone, Copy, PartialEq, Eq, Structural)]
pub enum Event {
    /// The association is set up.
    Connected,
    /// The association is gone.
    AssociationLost { reason: AssociationError },
    /// Something happened on a stream.
    Stream(StreamEvent),
}

/// Association represents an SCTP association
///
/// It holds what the protocol keeps per association: the tags that mark its packets in either
/// direction, the state of the handshake or shutdown, and what congestion control, retransmission
/// and the streams need.
#[derive(Debug)]
pub struct Association {
    pub side: Side,
    pub state: AssociationState,
    pub max_message_size: u32,
    pub inflight_queue_length: usize,
    pub will_send_shutdown: bool,
    pub bytes_received: usize,
    pub bytes_sent: usize,
    /// Packets with control chunks that wait to be sent.
    pub control_queue: VecDeque<Packet>,
    pub peer_verification_tag: u32,
    pub my_verification_tag: u32,
    pub my_next_tsn: u32,
    pub peer_last_tsn: u32,
    /// for RTT measurement
    pub min_tsn2measure_rtt: u32,
    pub will_send_forward_tsn: bool,
    pub will_retransmit_fast: bool,
    pub will_retransmit_reconfig: bool,
    pub will_send_shutdown_ack: bool,
    pub will_send_shutdown_complete: bool,
    pub my_next_rsn: u32,
    pub source_port: u16,
    pub destination_port: u16,
    pub my_max_num_inbound_streams: u16,
    pub my_max_num_outbound_streams: u16,
    /// Chunks that wait to be sent.
    pub pending_queue: VecDeque<ChunkPayloadData>,
    /// Chunks that were sent and are not yet acknowledged for good.
    pub inflight_queue: PayloadQueue,
    pub mtu: u32,
    /// max DATA chunk payload size
    pub max_payload_size: u32,
    pub cumulative_tsn_ack_point: u32,
    pub advanced_peer_tsn_ack_point: u32,
    pub use_forward_tsn: bool,
    pub max_receive_buffer_size: u32,
    /// my congestion window size
    pub cwnd: u32,
    /// calculated peer's receiver windows size
    pub rwnd: u32,
    /// slow start threshold
    pub ssthresh: u32,
    pub partial_bytes_acked: u32,
    pub in_fast_recovery: bool,
    pub fast_recover_exit_point: u32,
    /// The INIT chunk to send.
    pub stored_init: Option<ChunkInit>,
    /// The COOKIE-ECHO chunk to send, as often as need be.
    pub stored_cookie_echo: Option<ChunkCookieEcho>,
    /// The streams that are open, by their identifiers.
    pub streams: HashMap<u16, StreamState>,
    /// Streams that are not registered any more, in the order in which they went. Whoever waits on
    /// one of them is to be woken.
    pub retired: Vec<StreamState>,
    pub delayed_ack_triggered: bool,
    pub immediate_ack_triggered: bool,
    pub stats: AssociationStats,
    pub ack_state: AckState,
    pub ack_mode: AckMode,
    pub timers: TimerTable,
    /// Whether the loop that writes packets has been told to look for work; `None` where there is
    /// no such loop.
    pub awake_write_loop_ch: Option<bool>,
    /// Whether the loops that read and write packets are to go on.
    pub loops_open: bool,
    /// How the handshake ended, for whoever waits for that; `None` where nobody does.
    pub handshake_completed_ch: Option<Vec<Option<Error>>>,
    /// Datagrams that have arrived and wait to be decoded.
    pub inbound: VecDeque<Transmit>,
    /// Transmissions that are ready to go out.
    pub transmits: VecDeque<Transmit>,
    /// Events for the endpoint.
    pub endpoint_events: VecDeque<EndpointEvent>,
    /// Events for the application.
    pub events: VecDeque<Event>,
}

/// The port that both sides of an association use.
pub const SCTP_PORT: u16 = 5000;

/// The side that one is on, with or without a server configuration.
pub open spec fn side_of(serves: bool) -> Side {
    if serves {
        Side::Server
    } else {
        Side::Client
    }
}

/// The initial transmission sequence number that a random number gives: zero is not used.
pub open spec fn initial_tsn(seed: u32) -> u32 {
    if seed == 0 {
        1
    } else {
        seed
    }
}

/// The initial congestion window: `min(4 * MTU, max(2 * MTU, 4380))`.
pub open spec fn initial_cwnd(mtu: u32) -> int {
    let low = if 2 * mtu >= 4380 {
        2 * mtu
    } else {
        4380
    };
    if 4 * mtu <= low {
        4 * mtu
    } else {
        low
    }
}

/// The INIT chunk with which a client offers an association.
pub open spec fn first_offer(config: TransportConfig, seed: u32, tag: u32) -> InitOffer {
    InitOffer {
        initiate_tag: tag,
        advertised_receiver_window_credit: config.max_receive_buffer_size,
        num_outbound_streams: config.max_num_outbound_streams,
        num_inbound_streams: config.max_num_inbound_streams,
        initial_tsn: initial_tsn(seed),
        supported_extensions: seq![CT_RECONFIG, CT_FORWARD_TSN],
    }
}

/// The packet in which an INIT chunk travels.
pub open spec fn init_packet(verification_tag: u32, offer: InitOffer) -> PacketValue {
    PacketValue {
        source_port: SCTP_PORT,
        destination_port: SCTP_PORT,
        verification_tag,
        chunks: seq![ChunkValue::Init(offer)],
    }
}

impl Association {
    /// Whether the parts fit together.
    pub open spec fn wf(&self) -> bool {
        &&& self.inflight_queue.wf()
        &&& 4 * self.mtu <= u32::MAX
        &&& forall|id: u16|
            #[trigger] self.streams@.contains_key(id) ==> self.streams@[id].wf()
                && self.streams@[id]@.stream_identifier == id
    }

    /// Whether nothing has happened to the association yet.
    pub open spec fn is_blank(&self) -> bool {
        &&& self.side == Side::Client
        &&& self.state == AssociationState::Closed
        &&& self.max_message_size == 0
        &&& self.inflight_queue_length == 0
        &&& !self.will_send_shutdown
        &&& self.bytes_received == 0
        &&& self.bytes_sent == 0
        &&& self.control_queue@ == Seq::<Packet>::empty()
        &&& self.peer_verification_tag == 0
        &&& self.my_verification_tag == 0
        &&& self.my_next_tsn == 0
        &&& self.peer_last_tsn == 0
        &&& self.min_tsn2measure_rtt == 0
        &&& !self.will_send_forward_tsn
        &&& !self.will_retransmit_fast
        &&& !self.will_retransmit_reconfig
        &&& !self.will_send_shutdown_ack
        &&& !self.will_send_shutdown_complete
        &&& self.my_next_rsn == 0
        &&& self.source_port == 0
        &&& self.destination_port == 0
        &&& self.my_max_num_inbound_streams == 0
        &&& self.my_max_num_outbound_streams == 0
        &&& self.pending_queue@ == Seq::<ChunkPayloadData>::empty()
        &&& self.inflight_queue@ == Seq::<DataChunk>::empty()
        &&& self.mtu == 0
        &&& self.max_payload_size == 0
        &&& self.cumulative_tsn_ack_point == 0
        &&& self.advanced_peer_tsn_ack_point == 0
        &&& !self.use_forward_tsn
        &&& self.max_receive_buffer_size == 0
        &&& self.cwnd == 0
        &&& self.rwnd == 0
        &&& self.ssthresh == 0
        &&& self.partial_bytes_acked == 0
        &&& !self.in_fast_recovery
        &&& self.fast_recover_exit_point == 0
        &&& self.stored_init is None
        &&& self.stored_cookie_echo is None
        &&& self.streams@ == Map::<u16, StreamState>::empty()
        &&& self.retired@ == Seq::<StreamState>::empty()
        &&& !self.delayed_ack_triggered
        &&& !self.immediate_ack_triggered
        &&& self.stats == AssociationStats::zero()
        &&& self.ack_state == AckState::Idle
        &&& self.ack_mode == AckMode::Normal
        &&& self.timers@ == Seq::new(TIMER_COUNT as nat, |i: int| None::<Instant>)
        &&& self.awake_write_loop_ch is None
        &&& !self.loops_open
        &&& self.handshake_completed_ch is None
        &&& self.inbound@ == Seq::<Transmit>::empty()
        &&& self.transmits@ == Seq::<Transmit>::empty()
        &&& self.endpoint_events@ == Seq::<EndpointEvent>::empty()
        &&& self.events@ == Seq::<Event>::empty()
    }

    /// Whether `self` is an association just set up with that configuration, from two random
    /// numbers: what it differs in from a blank one is listed.
    pub open spec fn is_fresh(
        &self,
        side: Side,
        config: TransportConfig,
        seed: u32,
        tag: u32,
    ) -> bool {
        let tsn = initial_tsn(seed);
        exists|blank: Association| #[trigger]
            blank.is_blank() && *self == (Association {
                side,
                state: if side == Side::Client {
                    AssociationState::CookieWait
                } else {
                    AssociationState::Closed
                },
                max_receive_buffer_size: config.max_receive_buffer_size,
                max_message_size: config.max_message_size,
                my_max_num_outbound_streams: config.max_num_outbound_streams,
                my_max_num_inbound_streams: config.max_num_inbound_streams,
                max_payload_size: initial_max_payload_size(),
                mtu: INITIAL_MTU,
                cwnd: initial_cwnd(INITIAL_MTU) as u32,
                my_verification_tag: tag,
                my_next_tsn: tsn,
                my_next_rsn: tsn,
                min_tsn2measure_rtt: tsn,
                cumulative_tsn_ack_point: (tsn - 1) as u32,
                advanced_peer_tsn_ack_point: (tsn - 1) as u32,
                source_port: if side == Side::Client {
                    SCTP_PORT
                } else {
                    0
                },
                destination_port: if side == Side::Client {
                    SCTP_PORT
                } else {
                    0
                },
                control_queue: self.control_queue,
                ..blank
            }) && packet_views(self.control_queue@) == (if side == Side::Client {
                seq![init_packet(0, first_offer(config, seed, tag))]
            } else {
                Seq::<PacketValue>::empty()
            })
    }

    /// Whether `after` is the association once it was asked to send its INIT chunk: the chunk, if
    /// there is one, is no longer stored but queued in a packet, and the ports are set.
    pub open spec fn sent_init(&self, after: Association) -> bool {
        match self.stored_init {
            Some(init) => {
                &&& after == (Association {
                    source_port: SCTP_PORT,
                    destination_port: SCTP_PORT,
                    stored_init: None,
                    control_queue: after.control_queue,
                    ..*self
                })
                &&& packet_views(after.control_queue@) == packet_views(self.control_queue@).push(
                    init_packet(self.peer_verification_tag, init@),
                )
            },
            None => after == *self,
        }
    }

    /// Whether `after` is the association once it was asked to send its COOKIE-ECHO chunk: a packet
    /// with the chunk, if there is one, is queued, and the chunk stays stored.
    pub open spec fn sent_cookie_echo(&self, after: Association) -> bool {
        match self.stored_cookie_echo {
            Some(echo) => {
                &&& after == (Association { control_queue: after.control_queue, ..*self })
                &&& packet_views(after.control_queue@) == packet_views(self.control_queue@).push(
                    PacketValue {
                        source_port: self.source_port,
                        destination_port: self.destination_port,
                        verification_tag: self.peer_verification_tag,
                        chunks: seq![ChunkValue::CookieEcho(echo@)],
                    },
                )
            },
            None => after == *self,
        }
    }
}

impl Default for Association {
    fn default() -> (r: Self)
        ensures
            r.is_blank(),
            r.wf(),
    {
        Association {
            side: Side::Client,
            state: AssociationState::Closed,
            max_message_size: 0,
            inflight_queue_length: 0,
            will_send_shutdown: false,
            bytes_received: 0,
            bytes_sent: 0,
            control_queue: VecDeque::new(),
            peer_verification_tag: 0,
            my_verification_tag: 0,
            my_next_tsn: 0,
            peer_last_tsn: 0,
            min_tsn2measure_rtt: 0,
            will_send_forward_tsn: false,
            will_retransmit_fast: false,
            will_retransmit_reconfig: false,
            will_send_shutdown_ack: false,
            will_send_shutdown_complete: false,
            my_next_rsn: 0,
            source_port: 0,
            destination_port: 0,
            my_max_num_inbound_streams: 0,
            my_max_num_outbound_streams: 0,
            pending_queue: VecDeque::new(),
            inflight_queue: PayloadQueue::new(),
            mtu: 0,
            max_payload_size: 0,
            cumulative_tsn_ack_point: 0,
            advanced_peer_tsn_ack_point: 0,
            use_forward_tsn: false,
            max_receive_buffer_size: 0,
            cwnd: 0,
            rwnd: 0,
            ssthresh: 0,
            partial_bytes_acked: 0,
            in_fast_recovery: false,
            fast_recover_exit_point: 0,
            stored_init: None,
            stored_cookie_echo: None,
            streams: HashMap::new(),
            retired: Vec::new(),
            delayed_ack_triggered: false,
            immediate_ack_triggered: false,
            stats: AssociationStats::default(),
            ack_state: AckState::Idle,
            ack_mode: AckMode::Normal,
            timers: TimerTable::default(),
            awake_write_loop_ch: None,
            loops_open: false,
            handshake_completed_ch: None,
            inbound: VecDeque::new(),
            transmits: VecDeque::new(),
            endpoint_events: VecDeque::new(),
            events: VecDeque::new(),
        }
    }
}

impl Association {
    /// Sets up an association: with a server configuration as the accepting side, else as the
    /// initiating side, whose first packet is then ready to be sent.
    pub fn new(
        server_config: Option<Arc<ServerConfig>>,
        config: Arc<TransportConfig>,
        init_cid: AssociationId,
        loc_cid: AssociationId,
        rem_cid: AssociationId,
        remote: SocketAddr,
        local_ip: Option<IpAddr>,
        cid_gen: &AidGenerator,
        now: Instant,
    ) -> (r: Self)
        ensures
            r.wf(),
            exists|seed: u32, tag: u32| #[trigger]
                r.is_fresh(side_of(server_config is Some), *config, seed, tag),
    {
        let side: Side = if server_config.is_some() {
            Side::Server
        } else {
            Side::Client
        };
        let tsn: u32 = random_u32();
        let tag: u32 = random_u32();
        Association::from_numbers(side, &config, tsn, tag)
    }

    /// Sets up an association from two random numbers: one for the first transmission sequence
    /// number, and one for the verification tag.
    pub fn from_numbers(side: Side, config: &TransportConfig, seed: u32, tag: u32) -> (r: Self)
        ensures
            r.wf(),
            r.is_fresh(side, *config, seed, tag),
    {
        let mtu: u32 = INITIAL_MTU;
        let low: u32 = if 2 * mtu >= 4380 {
            2 * mtu
        } else {
            4380
        };
        let cwnd: u32 = if 4 * mtu <= low {
            4 * mtu
        } else {
            low
        };
        let mut tsn: u32 = seed;
        if tsn == 0 {
            tsn += 1;
        }

        let blank = Association::default();
        let ghost b = blank;
        let mut this = Association {
            side,
            max_receive_buffer_size: config.max_receive_buffer_size,
            max_message_size: config.max_message_size,
            my_max_num_outbound_streams: config.max_num_outbound_streams,
            my_max_num_inbound_streams: config.max_num_inbound_streams,
            max_payload_size: INITIAL_MTU - (COMMON_HEADER_SIZE + DATA_CHUNK_HEADER_SIZE),
            mtu,
            cwnd,
            my_verification_tag: tag,
            my_next_tsn: tsn,
            my_next_rsn: tsn,
            min_tsn2measure_rtt: tsn,
            cumulative_tsn_ack_point: tsn - 1,
            advanced_peer_tsn_ack_point: tsn - 1,
            ..blank
        };
        assert(b.is_blank());
        assert(packet_views(this.control_queue@) =~= Seq::<PacketValue>::empty());

        if side.is_client() {
            let mut init = ChunkInit {
                initial_tsn: this.my_next_tsn,
                num_outbound_streams: this.my_max_num_outbound_streams,
                num_inbound_streams: this.my_max_num_inbound_streams,
                initiate_tag: this.my_verification_tag,
                advertised_receiver_window_credit: this.max_receive_buffer_size,
                supported_extensions: Vec::new(),
            };
            init.set_supported_extensions();
            assert(init@ =~= first_offer(*config, seed, tag));

            this.set_state(AssociationState::CookieWait);
            this.stored_init = Some(init);
            let ghost stored = this;
            let _ = this.send_init();
            assert(packet_views(this.control_queue@) =~= seq![
                init_packet(0, first_offer(*config, seed, tag)),
            ]);
            assert(stored.stored_init is Some);
            assert(this.stored_init is None && b.stored_init is None);
        }
        this
    }

    /// bytes_sent returns the number of bytes sent
    pub fn bytes_sent(&self) -> (r: usize)
        ensures
            r == self.bytes_sent,
    {
        self.bytes_sent
    }

    /// bytes_received returns the number of bytes received
    pub fn bytes_received(&self) -> (r: usize)
        ensures
            r == self.bytes_received,
    {
        self.bytes_received
    }

    /// max_message_size returns the maximum message size you can send.
    pub fn max_message_size(&self) -> (r: u32)
        ensures
            r == self.max_message_size,
    {
        self.max_message_size
    }

    /// set_max_message_size sets the maximum message size you can send.
    pub fn set_max_message_size(&mut self, max_message_size: u32)
        ensures
            *final(self) == (Association { max_message_size, ..*old(self) }),
    {
        self.max_message_size = max_message_size;
    }

    /// set_state sets the state of the Association.
    pub fn set_state(&mut self, new_state: AssociationState)
        ensures
            *final(self) == (Association { state: new_state, ..*old(self) }),
    {
        self.state = new_state;
    }

    /// get_state returns the state of the Association.
    pub fn get_state(&self) -> (r: AssociationState)
        ensures
            r == self.state,
    {
        self.state
    }

    /// Queues the stored INIT chunk for sending. It is stored no longer afterwards, so that it goes
    /// out once.
    pub fn send_init(&mut self) -> (r: Result<(), Error>)
        ensures
            old(self).sent_init(*final(self)),
            r == (if old(self).stored_init is Some {
                Ok(())
            } else {
                Err(Error::ErrInitNotStoredToSend)
            }),
    {
        let stored: Option<ChunkInit> = self.stored_init.take();
        assert(*self == (Association { stored_init: None, ..*old(self) }));
        if let Some(stored_init) = stored {
            let outbound = Packet::with_chunk(
                SCTP_PORT,
                SCTP_PORT,
                self.peer_verification_tag,
                PacketChunk::Init(stored_init),
            );
            let ghost before = packet_views(self.control_queue@);
            self.control_queue.push_back(outbound);
            assert(packet_views(self.control_queue@) =~= before.push(outbound@));
            self.source_port = SCTP_PORT;
            self.destination_port = SCTP_PORT;
            Ok(())
        } else {
            Err(Error::ErrInitNotStoredToSend)
        }
    }

    /// Queues the stored COOKIE-ECHO chunk for sending.
    pub fn send_cookie_echo(&mut self) -> (r: Result<(), Error>)
        ensures
            old(self).sent_cookie_echo(*final(self)),
            r == (if old(self).stored_cookie_echo is Some {
                Ok(())
            } else {
                Err(Error::ErrCookieEchoNotStoredToSend)
            }),
    {
        if let Some(stored_cookie_echo) = &self.stored_cookie_echo {
            let outbound = Packet::with_chunk(
                self.source_port,
                self.destination_port,
                self.peer_verification_tag,
                PacketChunk::CookieEcho(stored_cookie_echo.clone()),
            );

            let ghost before = packet_views(self.control_queue@);
            self.control_queue.push_back(outbound);
            assert(packet_views(self.control_queue@) =~= before.push(outbound@));
            Ok(())
        } else {
            Err(Error::ErrCookieEchoNotStoredToSend)
        }
    }
}

/// The INIT chunk goes out once: after it was sent, there is none to send, and asking again has no
/// effect. The COOKIE-ECHO chunk goes out as often as it is asked for.
pub proof fn law_init_goes_out_once(before: Association, mid: Association, after: Association)
    ensures
        before.sent_init(mid) && mid.sent_init(after) ==> mid.stored_init is None && after == mid,
        before.sent_cookie_echo(mid) && mid.sent_cookie_echo(after) && before.stored_cookie_echo
            is Some ==> after.stored_cookie_echo == before.stored_cookie_echo
            && after.control_queue@.len() == before.control_queue@.len() + 2,
{
    if before.sent_cookie_echo(mid) && mid.sent_cookie_echo(after) && before.stored_cookie_echo
        is Some {
        assert(packet_views(mid.control_queue@).len() == packet_views(before.control_queue@).len()
            + 1);
        assert(packet_views(after.control_queue@).len() == packet_views(mid.control_queue@).len()
            + 1);
    }
}

} // verus!
