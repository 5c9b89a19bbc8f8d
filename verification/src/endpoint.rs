//! Endpoints: what tells the associations at one address apart.

use std::collections::{HashMap, VecDeque};
use std::sync::Arc;

use bytes::BytesMut;
use fxhash::FxHashMap;
use slab::Slab;
use vstd::prelude::*;
use vstd::set_lib::{
    lemma_int_range, lemma_len_subset, lemma_map_size, lemma_map_size_bound, set_int_range,
};

use crate::association::{side_of, Association};
use crate::config::{ClientConfig, EndpointConfig, ServerConfig, TransportConfig};
use crate::shared::{
    AssociationEvent, AssociationEventInner, AssociationId, EcnCodepoint, EndpointEvent,
    EndpointEventInner, IpAddr, IssuedAid, Side, SocketAddr, Transmit,
};
use crate::table::{
    fx_contains, fx_insert, fx_into_values, fx_len, fx_remove, slab_entries, slab_get_mut,
    slab_insert, slab_new, slab_remove,
};
use crate::time::Instant;
use crate::util::{
    drew, lemma_drew_more, lemma_drew_nothing, AidSource, AssociationIdGenerator,
    RandomAssociationIdGenerator,
};

verus! {

/// What an endpoint keeps of an association.
#[derive(Debug)]
pub struct AssociationMeta {
    pub init_cid: AssociationId,
    /// Number of local identifiers that have been issued on request.
    pub cids_issued: u64,
    pub loc_cids: FxHashMap<u64, AssociationId>,
    /// Remote address the association began with
    pub initial_remote: SocketAddr,
}

/// An association in the roster of an endpoint: the identifiers under which its packets arrive, by
/// sequence number, the number of the last one issued on request, and with whom it began.
#[verifier::ext_equal]
pub struct Member {
    pub init_cid: AssociationId,
    pub cids_issued: u64,
    pub loc_cids: Map<u64, AssociationId>,
    pub initial_remote: SocketAddr,
}

impl View for AssociationMeta {
    type V = Member;

    open spec fn view(&self) -> Member {
        Member {
            init_cid: self.init_cid,
            cids_issued: self.cids_issued,
            loc_cids: self.loc_cids@,
            initial_remote: self.initial_remote,
        }
    }
}

/// Internal identifier for an `Association` currently associated with an endpoint
#[derive(Debug, Copy, Clone, Eq, PartialEq, Hash, Ord, PartialOrd, Structural)]
pub struct AssociationHandle(pub usize);

impl From<AssociationHandle> for usize {
    fn from(x: AssociationHandle) -> (r: usize) {
        x.0
    }
}

impl vstd::std_specs::convert::FromSpecImpl<AssociationHandle> for usize {
    open spec fn obeys_from_spec() -> bool {
        true
    }

    open spec fn from_spec(x: AssociationHandle) -> usize {
        x.0
    }
}

/// The associations of an endpoint, and the table by which a packet finds its association.
#[verifier::ext_equal]
pub struct Roster {
    pub ids: Map<AssociationId, AssociationHandle>,
    pub members: Map<usize, Member>,
}

/// The table of identifiers with some more entries.
pub open spec fn ids_with(
    ids: Map<AssociationId, AssociationHandle>,
    issued: Seq<IssuedAid>,
    ch: AssociationHandle,
) -> Map<AssociationId, AssociationHandle>
    decreases issued.len(),
{
    if issued.len() == 0 {
        ids
    } else {
        ids_with(ids, issued.drop_last(), ch).insert(issued.last().id, ch)
    }
}

/// The identifiers of an association with some more.
pub open spec fn loc_cids_with(loc_cids: Map<u64, AssociationId>, issued: Seq<IssuedAid>) -> Map<
    u64,
    AssociationId,
>
    decreases issued.len(),
{
    if issued.len() == 0 {
        loc_cids
    } else {
        loc_cids_with(loc_cids, issued.drop_last()).insert(
            issued.last().sequence,
            issued.last().id,
        )
    }
}

impl Roster {
    /// Whether the table and the associations agree: an identifier is in the table just where it
    /// belongs to the association that the table names, and to that association once.
    pub open spec fn wf(self) -> bool {
        &&& self.ids.dom().finite()
        &&& forall|h: usize, seq: u64| #[trigger]
            self.owns(h, seq) ==> {
                &&& seq <= self.members[h].cids_issued
                &&& self.ids.contains_pair(self.members[h].loc_cids[seq], AssociationHandle(h))
            }
        &&& forall|id: AssociationId| #[trigger]
            self.ids.contains_key(id) ==> exists|seq: u64| #[trigger]
                self.owns(self.ids[id].0, seq) && self.members[self.ids[id].0].loc_cids[seq] == id
        &&& forall|h: usize, seq1: u64, seq2: u64| #[trigger]
            self.owns(h, seq1) && #[trigger] self.owns(h, seq2) && seq1 != seq2
                ==> self.members[h].loc_cids[seq1] != self.members[h].loc_cids[seq2]
    }

    /// Whether the association with that handle has an identifier with that sequence number.
    pub open spec fn owns(self, h: usize, seq: u64) -> bool {
        self.members.contains_key(h) && self.members[h].loc_cids.contains_key(seq)
    }

    /// The roster with an association added, which has one identifier.
    pub open spec fn with_member(
        self,
        ch: AssociationHandle,
        init_cid: AssociationId,
        loc_cid: AssociationId,
        initial_remote: SocketAddr,
    ) -> Roster {
        Roster {
            ids: self.ids.insert(loc_cid, ch),
            members: self.members.insert(
                ch.0,
                Member {
                    init_cid,
                    cids_issued: 0,
                    loc_cids: map![0u64 => loc_cid],
                    initial_remote,
                },
            ),
        }
    }

    /// The roster without an association and its identifiers.
    pub open spec fn without_member(self, ch: AssociationHandle) -> Roster {
        Roster {
            ids: self.ids.remove_keys(self.members[ch.0].loc_cids.values()),
            members: self.members.remove(ch.0),
        }
    }

    /// The roster with an association's identifier of that sequence number taken away.
    pub open spec fn without_id(self, ch: AssociationHandle, seq: u64) -> Roster {
        let member = self.members[ch.0];
        Roster {
            ids: self.ids.remove(member.loc_cids[seq]),
            members: self.members.insert(
                ch.0,
                Member { loc_cids: member.loc_cids.remove(seq), ..member },
            ),
        }
    }

    /// The roster with more identifiers for an association.
    pub open spec fn with_issued(self, ch: AssociationHandle, issued: Seq<IssuedAid>) -> Roster {
        if issued.len() == 0 {
            self
        } else {
            let member = self.members[ch.0];
            Roster {
                ids: ids_with(self.ids, issued, ch),
                members: self.members.insert(
                    ch.0,
                    Member {
                        cids_issued: (member.cids_issued + issued.len()) as u64,
                        loc_cids: loc_cids_with(member.loc_cids, issued),
                        ..member
                    },
                ),
            }
        }
    }

    /// Whether these are identifiers that can be issued to an association: new to the roster,
    /// no two alike, and numbered on from the last one issued.
    pub open spec fn can_issue(self, ch: AssociationHandle, issued: Seq<IssuedAid>) -> bool {
        &&& forall|i: int|
            0 <= i < issued.len() ==> {
                &&& !self.ids.contains_key((#[trigger] issued[i]).id)
                &&& issued[i].sequence == self.members[ch.0].cids_issued + i + 1
            }
        &&& forall|i: int, j: int|
            0 <= i < j < issued.len() ==> (#[trigger] issued[i]).id != (#[trigger] issued[j]).id
    }
}

/// Event resulting from processing a single datagram
pub enum DatagramEvent {
    /// The datagram is redirected to its `Association`
    AssociationEvent(AssociationEvent),
    /// The datagram has resulted in starting a new `Association`
    NewAssociation(Association),
}

/// Errors in the parameters being used to create a new association
///
/// These arise before any I/O has been performed.
#[derive(Debug, Clone, PartialEq, Eq)]
pub enum ConnectError {
    /// The endpoint can no longer create new associations
    ///
    /// Indicates that a necessary component of the endpoint has been dropped or otherwise disabled.
    EndpointStopping,
    /// The number of active associations on the local endpoint is at the limit
    ///
    /// Try using longer association IDs.
    TooManyAssociations,
    /// The domain name supplied was malformed
    InvalidDnsName(String),
    /// The remote [`SocketAddr`] supplied was malformed
    ///
    /// Examples include attempting to connect to port 0, or using an inappropriate address family.
    InvalidRemoteAddress(SocketAddr),
    /// No default client configuration was set up
    ///
    /// Use `Endpoint::connect_with` to specify a client configuration.
    NoDefaultClientConfig,
}

/// The main entry point to the library
///
/// This object performs no I/O whatsoever. Instead, it generates a stream of packets to send via
/// `poll_transmit`, and consumes incoming packets and connection-generated events via `handle` and
/// `handle_event`.
pub struct Endpoint {
    pub transmits: VecDeque<Transmit>,
    /// Identifies associations based on the initial identifier the peer utilized
    ///
    /// Uses a standard `HashMap` to protect against hash collision attacks.
    pub connection_ids_initial: HashMap<AssociationId, AssociationHandle>,
    /// Identifies associations based on locally created identifiers
    ///
    /// Uses a cheaper hash function since keys are locally created
    pub connection_ids: FxHashMap<AssociationId, AssociationHandle>,
    /// Identifies associations without an identifier, by where they came from.
    pub connection_remotes: Vec<(SocketAddr, AssociationHandle)>,
    pub connections: Slab<AssociationMeta>,
    pub local_cid_generator: AidSource,
    pub config: Arc<EndpointConfig>,
    pub server_config: Option<Arc<ServerConfig>>,
    /// Whether incoming connections should be unconditionally rejected by a server
    pub reject_new_connections: bool,
}

impl Endpoint {
    /// The associations of the endpoint and the table of their identifiers.
    pub open spec fn roster(&self) -> Roster {
        Roster {
            ids: self.connection_ids@,
            members: slab_entries(self.connections).map_values(|m: AssociationMeta| m@),
        }
    }

    /// Whether the table of identifiers agrees with the associations.
    pub open spec fn wf(&self) -> bool {
        self.roster().wf()
    }
}

/// The number of identifiers that an endpoint may use for its associations: about three quarters
/// of those that there are.
pub const MAX_IDENTIFIERS: usize = 3_221_225_470;

/// How many identifiers there are.
pub const IDENTIFIER_COUNT: u64 = 0x1_0000_0000;

proof fn lemma_ids_bound(ids: Map<AssociationId, AssociationHandle>)
    ensures
        ids.len() <= IDENTIFIER_COUNT,
{
    let range = set_int_range(0, IDENTIFIER_COUNT as int);
    let f = |i: int| i as AssociationId;
    let all = range.map(f);
    lemma_int_range(0, IDENTIFIER_COUNT as int);
    lemma_map_size_bound(range, all, f);
    assert forall|id: AssociationId| #[trigger] ids.dom().contains(id) implies all.contains(id) by {
        assert(range.contains(id as int));
        assert(f(id as int) == id);
    }
    lemma_len_subset(ids.dom(), all);
}

proof fn lemma_some_id_is_free(ids: Map<AssociationId, AssociationHandle>)
    requires
        ids.dom().finite(),
        ids.len() < IDENTIFIER_COUNT,
    ensures
        exists|id: AssociationId| !#[trigger] ids.contains_key(id),
{
    if forall|id: AssociationId| #[trigger] ids.contains_key(id) {
        let range = set_int_range(0, IDENTIFIER_COUNT as int);
        let f = |i: int| i as AssociationId;
        let all = range.map(f);
        lemma_int_range(0, IDENTIFIER_COUNT as int);
        lemma_map_size(range, all, f);
        assert(all.subset_of(ids.dom()));
        lemma_len_subset(all, ids.dom());
    }
}

/// Whether an identifier that is not in use came of those draws: it is the last of them, and all of
/// the others are in use. Draws can be counted no further than up to a limit: once as many have been
/// in use, it is the lowest that is not.
pub open spec fn came_of(
    draws: Seq<AssociationId>,
    in_use: Map<AssociationId, AssociationHandle>,
    id: AssociationId,
) -> bool {
    &&& !in_use.contains_key(id)
    &&& if draws.len() > 0 && !in_use.contains_key(draws.last()) {
        &&& id == draws.last()
        &&& all_in_use(draws.drop_last(), in_use)
    } else {
        &&& draws.len() == u64::MAX
        &&& all_in_use(draws, in_use)
        &&& forall|lower: AssociationId| lower < id ==> #[trigger] in_use.contains_key(lower)
    }
}

/// Whether an identifier came of what was drawn from a generator to find one that is not in use.
pub open spec fn drew_one(
    before: AidSource,
    in_use: Map<AssociationId, AssociationHandle>,
    id: AssociationId,
    after: AidSource,
) -> bool {
    exists|draws: Seq<AssociationId>| #[trigger]
        drew(before, draws, after) && came_of(draws, in_use, id)
}

/// Whether all of those identifiers are in use.
pub open spec fn all_in_use(
    ids: Seq<AssociationId>,
    in_use: Map<AssociationId, AssociationHandle>,
) -> bool {
    forall|i: int| 0 <= i < ids.len() ==> in_use.contains_key(#[trigger] ids[i])
}

/// Whether identifiers that were given out to an association came of those draws, one after the
/// other, each of them being in use from then on.
pub open spec fn came_in_turn(
    draws: Seq<AssociationId>,
    in_use: Map<AssociationId, AssociationHandle>,
    ch: AssociationHandle,
    issued: Seq<IssuedAid>,
) -> bool
    decreases issued.len(),
{
    if issued.len() == 0 {
        draws.len() == 0
    } else {
        exists|k: int|
            0 <= k <= draws.len() && came_in_turn(draws.take(k), in_use, ch, issued.drop_last())
                && #[trigger] came_of(
                draws.skip(k),
                ids_with(in_use, issued.drop_last(), ch),
                issued.last().id,
            )
    }
}

/// One more identifier that came of some more draws.
proof fn lemma_came_next(
    draws: Seq<AssociationId>,
    in_use: Map<AssociationId, AssociationHandle>,
    ch: AssociationHandle,
    issued: Seq<IssuedAid>,
    more: Seq<AssociationId>,
    aid: IssuedAid,
)
    requires
        came_in_turn(draws, in_use, ch, issued),
        came_of(more, ids_with(in_use, issued, ch), aid.id),
    ensures
        came_in_turn(draws + more, in_use, ch, issued.push(aid)),
{
    let k = draws.len() as int;
    assert((draws + more).take(k) =~= draws);
    assert((draws + more).skip(k) =~= more);
    assert(issued.push(aid).drop_last() =~= issued);
    assert(came_of(
        (draws + more).skip(k),
        ids_with(in_use, issued.push(aid).drop_last(), ch),
        issued.push(aid).last().id,
    ));
}

/// Whether the identifiers that were given out, starting from the roster `in_use`, came of what was
/// drawn from the generator in between, and nothing else was drawn.
pub open spec fn gave_out(
    before: AidSource,
    in_use: Map<AssociationId, AssociationHandle>,
    ch: AssociationHandle,
    issued: Seq<IssuedAid>,
    after: AidSource,
) -> bool {
    exists|draws: Seq<AssociationId>| #[trigger]
        drew(before, draws, after) && came_in_turn(draws, in_use, ch, issued)
}

impl Endpoint {
    /// An identifier that no association uses.
    ///
    /// Identifiers are drawn until one is unused. A generator that yields nothing but used ones for
    /// as long as draws can be counted is given up on for the lowest unused identifier.
    fn new_aid(&mut self) -> (r: AssociationId)
        requires
            old(self).connection_ids@.dom().finite(),
            old(self).connection_ids@.len() < IDENTIFIER_COUNT,
        ensures
            *final(self) == (Endpoint {
                local_cid_generator: final(self).local_cid_generator,
                ..*old(self)
            }),
            drew_one(
                old(self).local_cid_generator,
                old(self).connection_ids@,
                r,
                final(self).local_cid_generator,
            ),
    {
        broadcast use vstd::std_specs::hash::group_hash_axioms;

        let ghost first = self.local_cid_generator;
        let ghost mut seen: Seq<AssociationId> = Seq::empty();
        proof {
            lemma_drew_nothing(first);
        }
        let mut draws: u64 = 0;
        while draws < u64::MAX
            invariant
                vstd::std_specs::hash::obeys_key_model::<AssociationId>(),
                *self == (Endpoint { local_cid_generator: self.local_cid_generator, ..*old(self) }),
                first == old(self).local_cid_generator,
                seen.len() == draws,
                drew(first, seen, self.local_cid_generator),
                all_in_use(seen, self.connection_ids@),
            decreases u64::MAX - draws,
        {
            let ghost before = self.local_cid_generator;
            let ghost led = seen;
            let aid: AssociationId = self.local_cid_generator.draw();
            proof {
                lemma_drew_more(first, led, before, seq![aid], self.local_cid_generator);
                seen = led + seq![aid];
                assert(seen.drop_last() =~= led);
            }
            if !fx_contains(&self.connection_ids, &aid) {
                assert(came_of(seen, self.connection_ids@, aid));
                return aid;
            }
            draws += 1;
        }
        proof {
            lemma_some_id_is_free(self.connection_ids@);
        }
        let mut aid: AssociationId = 0;
        while fx_contains(&self.connection_ids, &aid)
            invariant
                vstd::std_specs::hash::obeys_key_model::<AssociationId>(),
                exists|id: AssociationId| !#[trigger] self.connection_ids@.contains_key(id),
                forall|id: AssociationId|
                    id < aid ==> #[trigger] self.connection_ids@.contains_key(id),
            decreases u32::MAX - aid,
        {
            assert(aid < u32::MAX);
            aid += 1;
        }
        assert(came_of(seen, self.connection_ids@, aid));
        aid
    }

    /// Gives out identifiers for an association, and says which.
    fn send_new_identifiers(&mut self, now: Instant, ch: AssociationHandle, num: u64) -> (r:
        AssociationEvent)
        requires
            old(self).wf(),
            num > 0 ==> old(self).roster().members.contains_key(ch.0)
                && old(self).roster().members[ch.0].cids_issued + num <= u64::MAX,
            old(self).roster().ids.len() + num <= IDENTIFIER_COUNT,
        ensures
            final(self).wf(),
            *final(self) == (Endpoint {
                connection_ids: final(self).connection_ids,
                connections: final(self).connections,
                local_cid_generator: final(self).local_cid_generator,
                ..*old(self)
            }),
            r.0 matches AssociationEventInner::NewIdentifiers(ids, at) && at == now && ids@.len()
                == num && old(self).roster().can_issue(ch, ids@) && final(self).roster()
                == old(self).roster().with_issued(ch, ids@) && gave_out(
                old(self).local_cid_generator,
                old(self).roster().ids,
                ch,
                ids@,
                final(self).local_cid_generator,
            ),
    {
        broadcast use vstd::std_specs::hash::group_hash_axioms;

        let ghost before = self.roster();
        let mut ids: Vec<IssuedAid> = Vec::new();
        let ghost mut draws: Seq<AssociationId> = Seq::empty();
        proof {
            lemma_drew_nothing(self.local_cid_generator);
        }
        let mut i: u64 = 0;
        while i < num
            invariant
                vstd::std_specs::hash::obeys_key_model::<AssociationId>(),
                vstd::std_specs::hash::obeys_key_model::<u64>(),
                before == old(self).roster(),
                before.wf(),
                self.wf(),
                *self == (Endpoint {
                    connection_ids: self.connection_ids,
                    connections: self.connections,
                    local_cid_generator: self.local_cid_generator,
                    ..*old(self)
                }),
                i == ids@.len() <= num,
                num > 0 ==> before.members.contains_key(ch.0) && before.members[ch.0].cids_issued
                    + num <= u64::MAX,
                before.ids.len() + num <= IDENTIFIER_COUNT,
                self.roster().ids.len() == before.ids.len() + i,
                before.can_issue(ch, ids@),
                self.roster() == before.with_issued(ch, ids@),
                drew(old(self).local_cid_generator, draws, self.local_cid_generator),
                came_in_turn(draws, before.ids, ch, ids@),
            decreases num - i,
        {
            let ghost then = self.roster();
            let ghost issued = ids@;
            let ghost drawn_from = self.local_cid_generator;
            let id: AssociationId = self.new_aid();
            let ghost more = choose|more: Seq<AssociationId>| #[trigger]
                drew(drawn_from, more, self.local_cid_generator) && came_of(more, then.ids, id);
            fx_insert(&mut self.connection_ids, id, ch);
            assert(slab_entries(self.connections).contains_key(ch.0)) by {
                assert(then.members.contains_key(ch.0));
            }
            let ghost entries = slab_entries(self.connections);
            let meta = slab_get_mut(&mut self.connections, ch.0);
            assert(meta@ == then.members[ch.0]);
            meta.cids_issued += 1;
            let sequence: u64 = meta.cids_issued;
            fx_insert(&mut meta.loc_cids, sequence, id);
            ids.push(IssuedAid { sequence, id });
            proof {
                let aid = IssuedAid { sequence, id };
                assert(ids@.drop_last() =~= issued);
                assert(ids@.last() == aid);
                lemma_issue_one(before, ch, issued, aid);
                let now_is = self.roster().members;
                let wanted = before.with_issued(ch, ids@).members;
                assert(ids@ == issued.push(aid));
                assert(now_is[ch.0].loc_cids =~= wanted[ch.0].loc_cids);
                assert(now_is[ch.0].cids_issued == wanted[ch.0].cids_issued);
                assert(now_is[ch.0] == wanted[ch.0]);
                assert forall|h: usize| #[trigger] now_is.contains_key(h) && h != ch.0 implies
                    now_is[h] == wanted[h] by {
                    let held = slab_entries(self.connections);
                    assert(held == entries.insert(ch.0, held[ch.0]));
                    assert(held.contains_key(h));
                    assert(entries[h] == held[h]);
                    assert(then.members.contains_key(h));
                    assert(then.members[h] == wanted[h]);
                }
                assert(now_is.dom() =~= then.members.dom());
                assert(wanted.dom() =~= then.members.dom());
                assert(now_is =~= wanted);
                assert(self.roster() == before.with_issued(ch, ids@));
                lemma_drew_more(
                    old(self).local_cid_generator,
                    draws,
                    drawn_from,
                    more,
                    self.local_cid_generator,
                );
                lemma_came_next(draws, before.ids, ch, issued, more, aid);
                draws = draws + more;
            }
            i += 1;
        }
        AssociationEvent(AssociationEventInner::NewIdentifiers(ids, now))
    }
}

/// One more identifier can be issued, and keeps the roster in order.
proof fn lemma_issue_one(
    before: Roster,
    ch: AssociationHandle,
    issued: Seq<IssuedAid>,
    aid: IssuedAid,
)
    requires
        before.wf(),
        before.members.contains_key(ch.0),
        before.can_issue(ch, issued),
        before.with_issued(ch, issued).wf(),
        before.members[ch.0].cids_issued + issued.len() + 1 <= u64::MAX,
        aid.sequence == before.members[ch.0].cids_issued + issued.len() + 1,
        !before.with_issued(ch, issued).ids.contains_key(aid.id),
    ensures
        before.can_issue(ch, issued.push(aid)),
        before.with_issued(ch, issued.push(aid)).wf(),
        before.with_issued(ch, issued.push(aid)).ids == before.with_issued(ch, issued).ids.insert(
            aid.id,
            ch,
        ),
        before.with_issued(ch, issued.push(aid)).members[ch.0].loc_cids == before.with_issued(
            ch,
            issued,
        ).members[ch.0].loc_cids.insert(aid.sequence, aid.id),
{
    let mid = before.with_issued(ch, issued);
    let more = issued.push(aid);
    let after = before.with_issued(ch, more);
    assert(more.drop_last() =~= issued);
    lemma_ids_with(before.ids, issued, ch);
    assert(after.members[ch.0].loc_cids == mid.members[ch.0].loc_cids.insert(aid.sequence, aid.id));
    assert forall|i: int| 0 <= i < more.len() implies {
        &&& !before.ids.contains_key((#[trigger] more[i]).id)
        &&& more[i].sequence == before.members[ch.0].cids_issued + i + 1
    } by {
        if i < issued.len() {
            assert(more[i] == issued[i]);
        }
    }
    assert forall|i: int, j: int| 0 <= i < j < more.len() implies (#[trigger] more[i]).id != (
    #[trigger] more[j]).id by {
        assert(more[i] == issued[i]);
        if j < issued.len() {
            assert(more[j] == issued[j]);
        }
    }
    assert forall|h: usize, seq: u64| #[trigger] after.owns(h, seq) implies {
        &&& seq <= after.members[h].cids_issued
        &&& after.ids.contains_pair(after.members[h].loc_cids[seq], AssociationHandle(h))
    } by {
        if !(h == ch.0 && seq == aid.sequence) {
            assert(mid.owns(h, seq));
        }
    }
    assert forall|id: AssociationId| #[trigger] after.ids.contains_key(id) implies exists|seq: u64|
        #[trigger] after.owns(after.ids[id].0, seq) && after.members[after.ids[id].0].loc_cids[seq]
            == id by {
        if id == aid.id {
            assert(after.owns(ch.0, aid.sequence));
        } else {
            assert(mid.ids.contains_key(id));
            let seq = choose|seq: u64| #[trigger]
                mid.owns(mid.ids[id].0, seq) && mid.members[mid.ids[id].0].loc_cids[seq] == id;
            assert(after.owns(after.ids[id].0, seq));
        }
    }
    assert forall|h: usize, seq1: u64, seq2: u64| #[trigger] after.owns(h, seq1) && #[trigger]
        after.owns(h, seq2) && seq1 != seq2 implies after.members[h].loc_cids[seq1]
        != after.members[h].loc_cids[seq2] by {
        if h == ch.0 && seq1 == aid.sequence {
            assert(mid.owns(h, seq2));
        } else if h == ch.0 && seq2 == aid.sequence {
            assert(mid.owns(h, seq1));
        } else {
            assert(mid.owns(h, seq1) && mid.owns(h, seq2));
        }
    }
    assert(after.ids.dom() =~= mid.ids.dom().insert(aid.id));
    assert(after.ids.dom().finite());
}

/// What is in a table of identifiers stays when more are entered, and those entered are there.
proof fn lemma_ids_with(
    ids: Map<AssociationId, AssociationHandle>,
    issued: Seq<IssuedAid>,
    ch: AssociationHandle,
)
    ensures
        forall|id: AssociationId| #[trigger]
            ids.contains_key(id) ==> ids_with(ids, issued, ch).contains_key(id),
        forall|i: int|
            0 <= i < issued.len() ==> ids_with(ids, issued, ch).contains_key(
                (#[trigger] issued[i]).id,
            ),
    decreases issued.len(),
{
    if issued.len() > 0 {
        lemma_ids_with(ids, issued.drop_last(), ch);
        assert forall|i: int| 0 <= i < issued.len() implies ids_with(ids, issued, ch).contains_key(
            (#[trigger] issued[i]).id,
        ) by {
            if i < issued.len() - 1 {
                assert(issued.drop_last()[i] == issued[i]);
            }
        }
    }
}

/// Whether `after` and `r` are what giving out `num` identifiers makes of the roster `before`.
pub open spec fn issues(
    before: Roster,
    ch: AssociationHandle,
    now: Instant,
    num: u64,
    after: Roster,
    r: Option<AssociationEvent>,
) -> bool {
    r matches Some(event) && event.0 matches AssociationEventInner::NewIdentifiers(ids, at) && at
        == now && ids@.len() == num && before.can_issue(ch, ids@) && after == before.with_issued(
        ch,
        ids@,
    )
}

/// Whether `after` and `r` are what an event of an association makes of the roster `before`.
pub open spec fn handles(
    before: Roster,
    ch: AssociationHandle,
    event: EndpointEventInner,
    after: Roster,
    r: Option<AssociationEvent>,
) -> bool {
    match event {
        EndpointEventInner::NeedIdentifiers(now, n) => issues(before, ch, now, n, after, r),
        EndpointEventInner::RetireAssociationId(now, seq, allow_more_aids) => {
            if !before.owns(ch.0, seq) {
                after == before && r is None
            } else if allow_more_aids {
                issues(before.without_id(ch, seq), ch, now, 1, after, r)
            } else {
                after == before.without_id(ch, seq) && r is None
            }
        },
        EndpointEventInner::Drained => after == before.without_member(ch) && r is None,
    }
}

/// Whether an entry of a table by address is for another address.
pub open spec fn is_other_remote(remote: SocketAddr) -> spec_fn(
    (SocketAddr, AssociationHandle),
) -> bool {
    |entry: (SocketAddr, AssociationHandle)| entry.0 != remote
}

/// The entries of a table by address that are for other addresses.
pub open spec fn other_remotes(
    remotes: Seq<(SocketAddr, AssociationHandle)>,
    remote: SocketAddr,
) -> Seq<(SocketAddr, AssociationHandle)> {
    remotes.filter(is_other_remote(remote))
}

/// Whether `after` and `r` are what an event of an association makes of the endpoint `before`. Once
/// an association is gone, what leads to it by other means than its identifiers goes as well.
pub open spec fn answers_event(
    before: Endpoint,
    ch: AssociationHandle,
    event: EndpointEventInner,
    after: Endpoint,
    r: Option<AssociationEvent>,
) -> bool {
    &&& handles(before.roster(), ch, event, after.roster(), r)
    &&& after == (Endpoint {
        connection_ids: after.connection_ids,
        connections: after.connections,
        local_cid_generator: after.local_cid_generator,
        connection_ids_initial: after.connection_ids_initial,
        connection_remotes: after.connection_remotes,
        ..before
    })
    &&& match r {
        Some(AssociationEvent(AssociationEventInner::NewIdentifiers(ids, _))) => gave_out(
            before.local_cid_generator,
            match event {
                EndpointEventInner::RetireAssociationId(_, seq, _) => before.roster().without_id(
                    ch,
                    seq,
                ).ids,
                _ => before.roster().ids,
            },
            ch,
            ids@,
            after.local_cid_generator,
        ),
        _ => after.local_cid_generator == before.local_cid_generator,
    }
    &&& if event == EndpointEventInner::Drained {
        let member = before.roster().members[ch.0];
        &&& after.connection_ids_initial@ == before.connection_ids_initial@.remove(member.init_cid)
        &&& after.connection_remotes@ == other_remotes(
            before.connection_remotes@,
            member.initial_remote,
        )
    } else {
        &&& after.connection_ids_initial == before.connection_ids_initial
        &&& after.connection_remotes == before.connection_remotes
    }
}

/// Whether there is room for that many more identifiers of an association.
pub open spec fn has_room_for(roster: Roster, ch: AssociationHandle, num: u64) -> bool {
    &&& num > 0 ==> roster.members.contains_key(ch.0) && roster.members[ch.0].cids_issued + num
        <= u64::MAX
    &&& roster.ids.len() + num <= IDENTIFIER_COUNT
}

/// Whether an association may send that event: it is in the roster, and there is room for the
/// identifiers that it asks for.
pub open spec fn may_handle(
    roster: Roster,
    ch: AssociationHandle,
    event: EndpointEventInner,
) -> bool {
    match event {
        EndpointEventInner::NeedIdentifiers(_, n) => has_room_for(roster, ch, n),
        EndpointEventInner::RetireAssociationId(_, seq, allow_more_aids) => {
            &&& roster.members.contains_key(ch.0)
            &&& allow_more_aids && roster.owns(ch.0, seq) ==> roster.members[ch.0].cids_issued
                < u64::MAX
        },
        EndpointEventInner::Drained => roster.members.contains_key(ch.0),
    }
}

impl Endpoint {
    /// Whether this is an endpoint with that configuration that has just been set up: it has no
    /// associations, nothing to send and no identifiers in use, takes new connections, and has drawn
    /// nothing yet from its generator, which is one that the configuration sets up.
    pub open spec fn is_new(
        &self,
        config: Arc<EndpointConfig>,
        server_config: Option<Arc<ServerConfig>>,
    ) -> bool {
        &&& self.roster().ids == Map::<AssociationId, AssociationHandle>::empty()
        &&& self.roster().members == Map::<usize, Member>::empty()
        &&& self.transmits@ == Seq::<Transmit>::empty()
        &&& self.connection_ids_initial@ == Map::<AssociationId, AssociationHandle>::empty()
        &&& self.connection_remotes@ == Seq::<(SocketAddr, AssociationHandle)>::empty()
        &&& self.config == config
        &&& self.server_config == server_config
        &&& !self.reject_new_connections
        &&& config.aid_generator_factory.factory.creates(self.local_cid_generator.generator())
        &&& self.local_cid_generator.drawn() == Seq::<AssociationId>::empty()
    }

    /// Create a new endpoint
    pub fn new(config: Arc<EndpointConfig>, server_config: Option<Arc<ServerConfig>>) -> (r: Self)
        ensures
            r.wf(),
            r.is_new(config, server_config),
    {
        let local_cid_generator = AidSource::new(config.aid_generator_factory.factory.create());
        let r = Endpoint {
            transmits: VecDeque::new(),
            connection_ids_initial: HashMap::new(),
            connection_ids: FxHashMap::default(),
            connection_remotes: Vec::new(),
            connections: slab_new(),
            local_cid_generator,
            reject_new_connections: false,
            config,
            server_config,
        };
        assert(r.roster().ids =~= Map::<AssociationId, AssociationHandle>::empty());
        assert(r.roster().members =~= Map::<usize, Member>::empty());
        r
    }

    /// Get the next packet to transmit
    #[must_use]
    pub fn poll_transmit(&mut self) -> (r: Option<Transmit>)
        ensures
            *final(self) == (Endpoint { transmits: final(self).transmits, ..*old(self) }),
            match r {
                Some(t) => old(self).transmits@ == seq![t] + final(self).transmits@,
                None => old(self).transmits@.len() == 0 && final(self).transmits@.len() == 0,
            },
    {
        let r: Option<Transmit> = self.transmits.pop_front();
        assert(r is Some ==> old(self).transmits@ =~= seq![r->0] + self.transmits@);
        r
    }

    /// Replace the server configuration, affecting new incoming associations only
    pub fn set_server_config(&mut self, server_config: Option<Arc<ServerConfig>>)
        ensures
            *final(self) == (Endpoint { server_config, ..*old(self) }),
    {
        self.server_config = server_config;
    }

    /// Process `EndpointEvent`s emitted from related `Association`s
    ///
    /// In turn, processing this event may return an `AssociationEvent` for the same `Association`.
    pub fn handle_event(&mut self, ch: AssociationHandle, event: EndpointEvent) -> (r: Option<
        AssociationEvent,
    >)
        requires
            old(self).wf(),
            may_handle(old(self).roster(), ch, event.0),
        ensures
            final(self).wf(),
            answers_event(*old(self), ch, event.0, *final(self), r),
    {
        match event.0 {
            EndpointEventInner::NeedIdentifiers(now, n) => {
                Some(self.send_new_identifiers(now, ch, n))
            },
            EndpointEventInner::RetireAssociationId(now, seq, allow_more_aids) => {
                if self.retire_id(ch, seq) && allow_more_aids {
                    return Some(self.send_new_identifiers(now, ch, 1));
                }
                None
            },
            EndpointEventInner::Drained => {
                let (init_cid, initial_remote) = self.remove_member(ch);
                self.forget_initial_id(init_cid);
                self.forget_remote(initial_remote);
                None
            },
        }
    }

    /// Takes an identifier of an association out of use. Yields whether it was in use.
    fn retire_id(&mut self, ch: AssociationHandle, seq: u64) -> (r: bool)
        requires
            old(self).wf(),
            old(self).roster().members.contains_key(ch.0),
        ensures
            final(self).wf(),
            r == old(self).roster().owns(ch.0, seq),
            final(self).roster() == (if r {
                old(self).roster().without_id(ch, seq)
            } else {
                old(self).roster()
            }),
            r ==> final(self).roster().ids.len() < IDENTIFIER_COUNT,
            *final(self) == (Endpoint {
                connection_ids: final(self).connection_ids,
                connections: final(self).connections,
                ..*old(self)
            }),
    {
        broadcast use vstd::std_specs::hash::group_hash_axioms;

        let ghost before = self.roster();
        let ghost entries = slab_entries(self.connections);
        let meta = slab_get_mut(&mut self.connections, ch.0);
        let removed: Option<AssociationId> = fx_remove(&mut meta.loc_cids, &seq);
        proof {
            let held = slab_entries(self.connections);
            assert(held == entries.insert(ch.0, held[ch.0]));
            assert(held[ch.0]@.loc_cids == before.members[ch.0].loc_cids.remove(seq));
        }
        if let Some(cid) = removed {
            fx_remove(&mut self.connection_ids, &cid);
            proof {
                lemma_ids_bound(before.ids);
                lemma_without_id(before, ch, seq);
                assert(self.roster().members =~= before.without_id(ch, seq).members);
            }
            true
        } else {
            proof {
                assert(self.roster().members[ch.0].loc_cids =~= before.members[ch.0].loc_cids);
                assert(self.roster().members =~= before.members);
            }
            false
        }
    }

    /// Takes an association and its identifiers out of the roster. Yields the identifier that its
    /// peer used at first, and the address that it began with.
    fn remove_member(&mut self, ch: AssociationHandle) -> (r: (AssociationId, SocketAddr))
        requires
            old(self).wf(),
            old(self).roster().members.contains_key(ch.0),
        ensures
            final(self).wf(),
            final(self).roster() == old(self).roster().without_member(ch),
            r.0 == old(self).roster().members[ch.0].init_cid,
            r.1 == old(self).roster().members[ch.0].initial_remote,
            *final(self) == (Endpoint {
                connection_ids: final(self).connection_ids,
                connections: final(self).connections,
                ..*old(self)
            }),
    {
        broadcast use vstd::std_specs::hash::group_hash_axioms;

        let ghost before = self.roster();
        let conn: AssociationMeta = slab_remove(&mut self.connections, ch.0);
        let cids: Vec<AssociationId> = fx_into_values(conn.loc_cids);
        let ghost table = self.connection_ids@;
        let ghost rest = slab_entries(self.connections);
        let mut i: usize = 0;
        assert(cids@.take(0).to_set() =~= Set::<AssociationId>::empty());
        assert(table.remove_keys(Set::<AssociationId>::empty()) =~= table);
        while i < cids.len()
            invariant
                vstd::std_specs::hash::obeys_key_model::<AssociationId>(),
                i <= cids@.len(),
                self.connection_ids@ == table.remove_keys(cids@.take(i as int).to_set()),
                slab_entries(self.connections) == rest,
                *self == (Endpoint {
                    connection_ids: self.connection_ids,
                    connections: self.connections,
                    ..*old(self)
                }),
            decreases cids@.len() - i,
        {
            fx_remove(&mut self.connection_ids, &cids[i]);
            proof {
                let some = cids@.take(i as int);
                let more = cids@.take(i + 1);
                assert(more =~= some.push(cids@[i as int]));
                assert forall|id: AssociationId| more.to_set().contains(id) == (
                some.to_set().contains(id) || id == cids@[i as int]) by {
                    if some.to_set().contains(id) {
                        let k = choose|k: int| 0 <= k < some.len() && some[k] == id;
                        assert(more[k] == id);
                    }
                    if id == cids@[i as int] {
                        assert(more[i as int] == id);
                    }
                }
                assert(self.connection_ids@ =~= table.remove_keys(more.to_set()));
            }
            i += 1;
        }
        proof {
            assert(cids@.take(cids@.len() as int) =~= cids@);
            lemma_without_member(before, ch);
            assert(self.roster().members =~= before.without_member(ch).members);
        }
        (conn.init_cid, conn.initial_remote)
    }

    /// Forgets the identifier that a peer used at first.
    fn forget_initial_id(&mut self, id: AssociationId)
        ensures
            final(self).connection_ids_initial@ == old(self).connection_ids_initial@.remove(id),
            *final(self) == (Endpoint {
                connection_ids_initial: final(self).connection_ids_initial,
                ..*old(self)
            }),
    {
        broadcast use vstd::std_specs::hash::group_hash_axioms;

        self.connection_ids_initial.remove(&id);
    }

    /// Forgets the associations that are known by an address.
    fn forget_remote(&mut self, remote: SocketAddr)
        ensures
            final(self).connection_remotes@ == other_remotes(
                old(self).connection_remotes@,
                remote,
            ),
            *final(self) == (Endpoint {
                connection_remotes: final(self).connection_remotes,
                ..*old(self)
            }),
    {
        let ghost all = self.connection_remotes@;
        let ghost is_other = is_other_remote(remote);
        let mut kept: Vec<(SocketAddr, AssociationHandle)> = Vec::new();
        let mut i: usize = 0;
        assert(all.take(0).filter(is_other) =~= Seq::<(SocketAddr, AssociationHandle)>::empty()) by {
            reveal(Seq::filter);
        }
        while i < self.connection_remotes.len()
            invariant
                i <= all.len(),
                all == self.connection_remotes@,
                *self == *old(self),
                is_other == is_other_remote(remote),
                kept@ == all.take(i as int).filter(is_other),
            decreases all.len() - i,
        {
            let entry: (SocketAddr, AssociationHandle) = self.connection_remotes[i];
            proof {
                reveal(Seq::filter);
                assert(all.take(i + 1).drop_last() =~= all.take(i as int));
                assert(all.take(i + 1).last() == entry);
            }
            if entry.0 != remote {
                kept.push(entry);
            }
            i += 1;
        }
        assert(all.take(all.len() as int) =~= all);
        self.connection_remotes = kept;
    }
}

proof fn lemma_without_id(before: Roster, ch: AssociationHandle, seq: u64)
    requires
        before.wf(),
        before.owns(ch.0, seq),
    ensures
        before.without_id(ch, seq).wf(),
        before.without_id(ch, seq).ids.len() + 1 == before.ids.len(),
{
    let after = before.without_id(ch, seq);
    let gone = before.members[ch.0].loc_cids[seq];
    assert(before.ids.contains_pair(gone, ch));
    assert(after.ids.dom() =~= before.ids.dom().remove(gone));
    assert forall|h: usize, s: u64| #[trigger] after.owns(h, s) implies {
        &&& s <= after.members[h].cids_issued
        &&& after.ids.contains_pair(after.members[h].loc_cids[s], AssociationHandle(h))
    } by {
        assert(before.owns(h, s));
        assert(before.owns(ch.0, seq));
    }
    assert forall|id: AssociationId| #[trigger] after.ids.contains_key(id) implies exists|s: u64|
        #[trigger] after.owns(after.ids[id].0, s) && after.members[after.ids[id].0].loc_cids[s]
            == id by {
        assert(before.ids.contains_key(id));
        let s = choose|s: u64| #[trigger]
            before.owns(before.ids[id].0, s) && before.members[before.ids[id].0].loc_cids[s] == id;
        assert(after.owns(after.ids[id].0, s));
    }
    assert forall|h: usize, s1: u64, s2: u64| #[trigger] after.owns(h, s1) && #[trigger] after.owns(
        h,
        s2,
    ) && s1 != s2 implies after.members[h].loc_cids[s1] != after.members[h].loc_cids[s2] by {
        assert(before.owns(h, s1) && before.owns(h, s2));
    }
}

proof fn lemma_without_member(before: Roster, ch: AssociationHandle)
    requires
        before.wf(),
        before.members.contains_key(ch.0),
    ensures
        before.without_member(ch).wf(),
{
    let after = before.without_member(ch);
    let gone = before.members[ch.0].loc_cids.values();
    assert(after.ids.dom().subset_of(before.ids.dom()));
    vstd::set_lib::lemma_len_subset(after.ids.dom(), before.ids.dom());
    assert forall|h: usize, s: u64| #[trigger] after.owns(h, s) implies {
        &&& s <= after.members[h].cids_issued
        &&& after.ids.contains_pair(after.members[h].loc_cids[s], AssociationHandle(h))
    } by {
        assert(before.owns(h, s));
        let id = before.members[h].loc_cids[s];
        if gone.contains(id) {
            let t = choose|t: u64| #[trigger]
                before.members[ch.0].loc_cids.contains_key(t) && before.members[ch.0].loc_cids[t]
                    == id;
            assert(before.owns(ch.0, t));
        }
    }
    assert forall|id: AssociationId| #[trigger] after.ids.contains_key(id) implies exists|s: u64|
        #[trigger] after.owns(after.ids[id].0, s) && after.members[after.ids[id].0].loc_cids[s]
            == id by {
        assert(before.ids.contains_key(id));
        let s = choose|s: u64| #[trigger]
            before.owns(before.ids[id].0, s) && before.members[before.ids[id].0].loc_cids[s] == id;
        if before.ids[id] == ch {
            assert(before.members[ch.0].loc_cids.contains_key(s));
            assert(gone.contains(id));
        }
        assert(after.owns(after.ids[id].0, s));
    }
    assert forall|h: usize, s1: u64, s2: u64| #[trigger] after.owns(h, s1) && #[trigger] after.owns(
        h,
        s2,
    ) && s1 != s2 implies after.members[h].loc_cids[s1] != after.members[h].loc_cids[s2] by {
        assert(before.owns(h, s1) && before.owns(h, s2));
    }
}

impl Endpoint {
    /// Process an incoming UDP datagram
    ///
    /// Datagrams are not decoded here: none finds an association, and none starts one.
    pub fn handle(
        &mut self,
        now: Instant,
        remote: SocketAddr,
        local_ip: Option<IpAddr>,
        ecn: Option<EcnCodepoint>,
        data: BytesMut,
    ) -> (r: Option<(AssociationHandle, DatagramEvent)>)
        ensures
            r is None,
            *final(self) == *old(self),
    {
        None
    }

    /// Initiate a Association
    pub fn connect(
        &mut self,
        config: ClientConfig,
        remote: SocketAddr,
        server_name: &str,
        now: Instant,
    ) -> (r: Result<(AssociationHandle, Association), ConnectError>)
        requires
            old(self).wf(),
        ensures
            final(self).wf(),
            match r {
                Err(ConnectError::TooManyAssociations) => old(self).roster().ids.len()
                    > MAX_IDENTIFIERS && *final(self) == *old(self),
                Err(ConnectError::InvalidRemoteAddress(at)) => old(self).roster().ids.len()
                    <= MAX_IDENTIFIERS && remote.port == 0 && at == remote && *final(self) == *old(
                    self,
                ),
                Err(_) => false,
                Ok((ch, conn)) => {
                    &&& old(self).roster().ids.len() <= MAX_IDENTIFIERS
                    &&& remote.port != 0
                    &&& conn.wf()
                    &&& exists|seed: u32, tag: u32| #[trigger]
                        conn.is_fresh(Side::Client, *config.transport, seed, tag)
                    &&& exists|init_cid: AssociationId, loc_cid: AssociationId|
                        drew_one(
                            old(self).local_cid_generator,
                            old(self).roster().ids,
                            loc_cid,
                            final(self).local_cid_generator,
                        ) && final(self).roster() == #[trigger] old(self).roster().with_member(
                            ch,
                            init_cid,
                            loc_cid,
                            remote,
                        )
                    &&& !old(self).roster().members.contains_key(ch.0)
                    &&& *final(self) == (Endpoint {
                        connection_ids: final(self).connection_ids,
                        connections: final(self).connections,
                        local_cid_generator: final(self).local_cid_generator,
                        ..*old(self)
                    })
                },
            },
    {
        if self.is_full() {
            return Err(ConnectError::TooManyAssociations);
        }
        if remote.port() == 0 {
            return Err(ConnectError::InvalidRemoteAddress(remote));
        }
        let mut generator = RandomAssociationIdGenerator::new();
        let remote_id: AssociationId = generator.generate_aid();

        let loc_cid: AssociationId = self.new_aid();
        let (ch, conn) = self.add_connection(
            remote_id,
            loc_cid,
            remote_id,
            remote,
            None,
            now,
            None,
            config.transport,
        );
        Ok((ch, conn))
    }

    /// Sets up an association, and enters it into the roster under a new handle.
    pub fn add_connection(
        &mut self,
        init_cid: AssociationId,
        loc_cid: AssociationId,
        rem_cid: AssociationId,
        remote: SocketAddr,
        local_ip: Option<IpAddr>,
        now: Instant,
        server_config: Option<Arc<ServerConfig>>,
        transport_config: Arc<TransportConfig>,
    ) -> (r: (AssociationHandle, Association))
        requires
            old(self).wf(),
            !old(self).roster().ids.contains_key(loc_cid),
        ensures
            final(self).wf(),
            !old(self).roster().members.contains_key(r.0.0),
            final(self).roster() == old(self).roster().with_member(r.0, init_cid, loc_cid, remote),
            *final(self) == (Endpoint {
                connection_ids: final(self).connection_ids,
                connections: final(self).connections,
                ..*old(self)
            }),
            r.1.wf(),
            exists|seed: u32, tag: u32| #[trigger]
                r.1.is_fresh(side_of(server_config is Some), *transport_config, seed, tag),
    {
        broadcast use vstd::std_specs::hash::group_hash_axioms;

        let ghost before = self.roster();
        let conn = Association::new(
            server_config,
            transport_config,
            init_cid,
            loc_cid,
            rem_cid,
            remote,
            local_ip,
            self.local_cid_generator.as_generator(),
            now,
        );

        let mut loc_cids: FxHashMap<u64, AssociationId> = FxHashMap::default();
        fx_insert(&mut loc_cids, 0u64, loc_cid);
        let id: usize = slab_insert(
            &mut self.connections,
            AssociationMeta { init_cid, cids_issued: 0, loc_cids, initial_remote: remote },
        );

        let ch = AssociationHandle(id);
        fx_insert(&mut self.connection_ids, loc_cid, ch);
        proof {
            let wanted = before.with_member(ch, init_cid, loc_cid, remote);
            assert(loc_cids@ =~= map![0u64 => loc_cid]);
            assert(self.roster().members =~= wanted.members);
            lemma_with_member(before, ch, init_cid, loc_cid, remote);
        }
        (ch, conn)
    }

    /// Unconditionally reject future incoming connections
    pub fn reject_new_connections(&mut self)
        ensures
            *final(self) == (Endpoint { reject_new_connections: true, ..*old(self) }),
    {
        self.reject_new_connections = true;
    }

    /// Access the configuration used by this endpoint
    pub fn config(&self) -> (r: &EndpointConfig)
        ensures
            *r == *self.config,
    {
        &self.config
    }

    /// Whether we've used up 3/4 of the available AID space
    fn is_full(&self) -> (r: bool)
        ensures
            r == (self.roster().ids.len() > MAX_IDENTIFIERS),
    {
        MAX_IDENTIFIERS < fx_len(&self.connection_ids)
    }
}

proof fn lemma_with_member(
    before: Roster,
    ch: AssociationHandle,
    init_cid: AssociationId,
    loc_cid: AssociationId,
    remote: SocketAddr,
)
    requires
        before.wf(),
        !before.ids.contains_key(loc_cid),
        !before.members.contains_key(ch.0),
    ensures
        before.with_member(ch, init_cid, loc_cid, remote).wf(),
{
    let after = before.with_member(ch, init_cid, loc_cid, remote);
    assert(after.ids.dom() =~= before.ids.dom().insert(loc_cid));
    assert forall|h: usize, s: u64| #[trigger] after.owns(h, s) implies {
        &&& s <= after.members[h].cids_issued
        &&& after.ids.contains_pair(after.members[h].loc_cids[s], AssociationHandle(h))
    } by {
        if h != ch.0 {
            assert(before.owns(h, s));
        }
    }
    assert forall|id: AssociationId| #[trigger] after.ids.contains_key(id) implies exists|s: u64|
        #[trigger] after.owns(after.ids[id].0, s) && after.members[after.ids[id].0].loc_cids[s]
            == id by {
        if id == loc_cid {
            assert(after.owns(ch.0, 0u64));
        } else {
            assert(before.ids.contains_key(id));
            let s = choose|s: u64| #[trigger]
                before.owns(before.ids[id].0, s) && before.members[before.ids[id].0].loc_cids[s]
                    == id;
            assert(after.owns(after.ids[id].0, s));
        }
    }
    assert forall|h: usize, s1: u64, s2: u64| #[trigger] after.owns(h, s1) && #[trigger] after.owns(
        h,
        s2,
    ) && s1 != s2 implies after.members[h].loc_cids[s1] != after.members[h].loc_cids[s2] by {
        if h != ch.0 {
            assert(before.owns(h, s1) && before.owns(h, s2));
        }
    }
}

/// An association that is set up and then drained leaves no trace in the roster.
pub proof fn law_drained_association_leaves_no_trace(
    before: Roster,
    ch: AssociationHandle,
    init_cid: AssociationId,
    loc_cid: AssociationId,
    remote: SocketAddr,
    after: Roster,
    r: Option<AssociationEvent>,
)
    requires
        before.wf(),
        !before.ids.contains_key(loc_cid),
        !before.members.contains_key(ch.0),
        handles(
            before.with_member(ch, init_cid, loc_cid, remote),
            ch,
            EndpointEventInner::Drained,
            after,
            r,
        ),
    ensures
        after == before,
{
    let mid = before.with_member(ch, init_cid, loc_cid, remote);
    let gone = mid.members[ch.0].loc_cids.values();
    assert(mid.members[ch.0].loc_cids.contains_key(0u64));
    assert(gone.contains(loc_cid));
    assert(after.ids =~= before.ids);
    assert(after.members =~= before.members);
}

/// A packet with an identifier that was issued finds the association that it was issued to. None
/// finds an association by an identifier that was retired without a replacement, and none finds one
/// that was drained. Whatever an association asks for, the identifiers of the others stay theirs.
pub proof fn law_identifiers_lead_to_their_association(
    before: Roster,
    ch: AssociationHandle,
    event: EndpointEventInner,
    after: Roster,
    r: Option<AssociationEvent>,
)
    requires
        before.wf(),
        may_handle(before, ch, event),
        handles(before, ch, event, after, r),
    ensures
        event matches EndpointEventInner::NeedIdentifiers(_, n) ==> (r matches Some(e)
            && e.0 matches AssociationEventInner::NewIdentifiers(ids, _) && forall|i: int|
            0 <= i < ids@.len() ==> after.ids.contains_pair((#[trigger] ids@[i]).id, ch)),
        event matches EndpointEventInner::RetireAssociationId(_, seq, more) ==> (!more
            && before.owns(ch.0, seq) ==> !after.ids.contains_key(
            before.members[ch.0].loc_cids[seq],
        )),
        event == EndpointEventInner::Drained ==> forall|id: AssociationId| #[trigger]
            after.ids.contains_key(id) ==> after.ids[id] != ch,
        forall|id: AssociationId| #[trigger]
            before.ids.contains_key(id) && before.ids[id] != ch ==> after.ids.contains_pair(
                id,
                before.ids[id],
            ),
{
    match event {
        EndpointEventInner::NeedIdentifiers(_, n) => {
            if let Some(e) = r {
                if let AssociationEventInner::NewIdentifiers(ids, _) = e.0 {
                    lemma_issued_lead_to(before.ids, ids@, ch);
                    assert forall|i: int| 0 <= i < ids@.len() implies after.ids.contains_pair(
                        (#[trigger] ids@[i]).id,
                        ch,
                    ) by {
                        assert(after.ids == ids_with(before.ids, ids@, ch));
                    }
                    assert forall|id: AssociationId| #[trigger]
                        before.ids.contains_key(id) && before.ids[id]
                            != ch implies after.ids.contains_pair(id, before.ids[id]) by {
                        lemma_others_stay(before.ids, ids@, ch, id);
                    }
                }
            }
        },
        EndpointEventInner::RetireAssociationId(_, seq, more) => {
            if before.owns(ch.0, seq) {
                let mid = before.without_id(ch, seq);
                assert(before.ids.contains_pair(before.members[ch.0].loc_cids[seq], ch));
                assert forall|id: AssociationId| #[trigger]
                    before.ids.contains_key(id) && before.ids[id]
                        != ch implies after.ids.contains_pair(id, before.ids[id]) by {
                    assert(mid.ids.contains_pair(id, before.ids[id]));
                    if more {
                        if let Some(e) = r {
                            if let AssociationEventInner::NewIdentifiers(ids, _) = e.0 {
                                lemma_others_stay(mid.ids, ids@, ch, id);
                            }
                        }
                    }
                }
            }
        },
        EndpointEventInner::Drained => {
            lemma_without_member(before, ch);
            let gone = before.members[ch.0].loc_cids.values();
            assert forall|id: AssociationId| #[trigger]
                after.ids.contains_key(id) implies after.ids[id] != ch by {
                assert(exists|s: u64| #[trigger]
                    after.owns(after.ids[id].0, s) && after.members[after.ids[id].0].loc_cids[s]
                        == id);
            }
            assert forall|id: AssociationId| #[trigger]
                before.ids.contains_key(id) && before.ids[id] != ch implies after.ids.contains_pair(
                id,
                before.ids[id],
            ) by {
                if gone.contains(id) {
                    let t = choose|t: u64| #[trigger]
                        before.members[ch.0].loc_cids.contains_key(t)
                            && before.members[ch.0].loc_cids[t] == id;
                    assert(before.owns(ch.0, t));
                }
            }
        },
    }
}

proof fn lemma_issued_lead_to(
    ids: Map<AssociationId, AssociationHandle>,
    issued: Seq<IssuedAid>,
    ch: AssociationHandle,
)
    ensures
        forall|i: int|
            0 <= i < issued.len() ==> ids_with(ids, issued, ch).contains_pair(
                (#[trigger] issued[i]).id,
                ch,
            ),
    decreases issued.len(),
{
    if issued.len() > 0 {
        lemma_issued_lead_to(ids, issued.drop_last(), ch);
        assert forall|i: int| 0 <= i < issued.len() implies ids_with(ids, issued, ch).contains_pair(
            (#[trigger] issued[i]).id,
            ch,
        ) by {
            if i < issued.len() - 1 {
                assert(issued.drop_last()[i] == issued[i]);
            }
        }
    }
}

proof fn lemma_others_stay(
    ids: Map<AssociationId, AssociationHandle>,
    issued: Seq<IssuedAid>,
    ch: AssociationHandle,
    id: AssociationId,
)
    requires
        ids.contains_key(id),
        forall|i: int| 0 <= i < issued.len() ==> !ids.contains_key((#[trigger] issued[i]).id),
    ensures
        ids_with(ids, issued, ch).contains_pair(id, ids[id]),
    decreases issued.len(),
{
    if issued.len() > 0 {
        assert forall|i: int| 0 <= i < issued.drop_last().len() implies !ids.contains_key(
            (#[trigger] issued.drop_last()[i]).id,
        ) by {
            assert(issued.drop_last()[i] == issued[i]);
        }
        lemma_others_stay(ids, issued.drop_last(), ch, id);
        assert(issued.last() == issued[issued.len() - 1]);
    }
}

proof fn lemma_issued_were_drawn(
    draws: Seq<AssociationId>,
    in_use: Map<AssociationId, AssociationHandle>,
    ch: AssociationHandle,
    issued: Seq<IssuedAid>,
    i: int,
)
    requires
        came_in_turn(draws, in_use, ch, issued),
        draws.len() < u64::MAX,
        0 <= i < issued.len(),
    ensures
        draws.contains(issued[i].id),
    decreases issued.len(),
{
    reveal_with_fuel(came_in_turn, 2);
    let rest = issued.drop_last();
    let k = choose|k: int|
        0 <= k <= draws.len() && came_in_turn(draws.take(k), in_use, ch, rest)
            && #[trigger] came_of(draws.skip(k), ids_with(in_use, rest, ch), issued.last().id);
    if i < rest.len() {
        lemma_issued_were_drawn(draws.take(k), in_use, ch, rest, i);
        let j = choose|j: int| 0 <= j < k && draws.take(k)[j] == rest[i].id;
        assert(draws[j] == issued[i].id);
    } else {
        assert(draws.skip(k).last() == draws[draws.len() - 1]);
        assert(draws[draws.len() - 1] == issued[i].id);
    }
}

/// The identifiers that an endpoint gives out were drawn from its generator for that, so that each
/// of them is one that the generator may yield. As many draws as can be counted are left out.
pub proof fn law_identifiers_come_from_the_generator(
    before: AidSource,
    in_use: Map<AssociationId, AssociationHandle>,
    ch: AssociationHandle,
    issued: Seq<IssuedAid>,
    after: AidSource,
    i: int,
)
    requires
        gave_out(before, in_use, ch, issued, after),
        after.drawn().len() - before.drawn().len() < u64::MAX,
        0 <= i < issued.len(),
    ensures
        after.drawn().skip(before.drawn().len() as int).contains(issued[i].id),
        before.yields().contains(issued[i].id),
        after.yields() == before.yields(),
{
    let draws = choose|draws: Seq<AssociationId>| #[trigger]
        drew(before, draws, after) && came_in_turn(draws, in_use, ch, issued);
    lemma_issued_were_drawn(draws, in_use, ch, issued, i);
    assert(after.drawn().skip(before.drawn().len() as int) =~= draws);
    let j = choose|j: int| 0 <= j < draws.len() && draws[j] == issued[i].id;
    assert(before.yields().contains(draws[j]));
}

/// The identifier that an association is set up with was the last to be drawn, and all that was drawn
/// for it before was in use. As many draws as can be counted are left out.
pub proof fn law_first_identifier_was_drawn(
    before: AidSource,
    in_use: Map<AssociationId, AssociationHandle>,
    id: AssociationId,
    after: AidSource,
)
    requires
        drew_one(before, in_use, id, after),
        after.drawn().len() - before.drawn().len() < u64::MAX,
    ensures
        after.drawn().len() > before.drawn().len(),
        after.drawn().last() == id,
        before.yields().contains(id),
        !in_use.contains_key(id),
        forall|i: int|
            before.drawn().len() <= i < after.drawn().len() - 1 ==> in_use.contains_key(
                #[trigger] after.drawn()[i],
            ),
{
    let draws = choose|draws: Seq<AssociationId>| #[trigger]
        drew(before, draws, after) && came_of(draws, in_use, id);
    assert(draws[draws.len() - 1] == id);
    let n = before.drawn().len() as int;
    assert forall|i: int| n <= i < after.drawn().len() - 1 implies in_use.contains_key(
        #[trigger] after.drawn()[i],
    ) by {
        assert(draws.drop_last()[i - n] == after.drawn()[i]);
    }
}

} // verus!
