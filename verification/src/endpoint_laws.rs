//! What holds of endpoints, in terms of their identifiers and of the associations that these lead to.

use std::sync::Arc;

use vstd::prelude::*;

use crate::config::{EndpointConfig, ServerConfig};
use crate::endpoint::{
    answers_event, handles, ids_with, is_other_remote, loc_cids_with, may_handle,
    AssociationHandle, AssociationMeta, Endpoint, Member, Roster, MAX_IDENTIFIERS,
};
use crate::queue::laws::lemma_filter_same;
use crate::shared::{
    AssociationEvent, AssociationEventInner, AssociationId, EndpointEventInner, IssuedAid,
    SocketAddr,
};
use crate::table::slab_entries;

verus! {

proof fn lemma_ids_with(
    ids: Map<AssociationId, AssociationHandle>,
    issued: Seq<IssuedAid>,
    ch: AssociationHandle,
    id: AssociationId,
)
    ensures
        (exists|i: int| 0 <= i < issued.len() && (#[trigger] issued[i]).id == id) ==> ids_with(
            ids,
            issued,
            ch,
        ).contains_pair(id, ch),
        !(exists|i: int| 0 <= i < issued.len() && (#[trigger] issued[i]).id == id) ==> (ids_with(
            ids,
            issued,
            ch,
        ).contains_key(id) == ids.contains_key(id) && (ids.contains_key(id) ==> ids_with(
            ids,
            issued,
            ch,
        )[id] == ids[id])),
    decreases issued.len(),
{
    if issued.len() > 0 {
        let rest = issued.drop_last();
        lemma_ids_with(ids, rest, ch, id);
        assert(issued.last() == issued[issued.len() - 1]);
        if exists|i: int| 0 <= i < rest.len() && (#[trigger] rest[i]).id == id {
            let i = choose|i: int| 0 <= i < rest.len() && (#[trigger] rest[i]).id == id;
            assert(issued[i].id == id);
        }
        if exists|i: int| 0 <= i < issued.len() && (#[trigger] issued[i]).id == id {
            let i = choose|i: int| 0 <= i < issued.len() && (#[trigger] issued[i]).id == id;
            if i < rest.len() {
                assert(rest[i].id == id);
            }
        }
    }
}

proof fn lemma_loc_cids_with(loc_cids: Map<u64, AssociationId>, issued: Seq<IssuedAid>, seq: u64)
    requires
        forall|i: int, j: int|
            0 <= i < j < issued.len() ==> (#[trigger] issued[i]).sequence != (
            #[trigger] issued[j]).sequence,
    ensures
        forall|i: int|
            0 <= i < issued.len() ==> loc_cids_with(loc_cids, issued).contains_pair(
                (#[trigger] issued[i]).sequence,
                issued[i].id,
            ),
        !(exists|i: int| 0 <= i < issued.len() && (#[trigger] issued[i]).sequence == seq) ==> (
        loc_cids_with(loc_cids, issued).contains_key(seq) == loc_cids.contains_key(seq) && (
        loc_cids.contains_key(seq) ==> loc_cids_with(loc_cids, issued)[seq] == loc_cids[seq])),
    decreases issued.len(),
{
    if issued.len() > 0 {
        let rest = issued.drop_last();
        assert forall|i: int, j: int| 0 <= i < j < rest.len() implies (#[trigger] rest[i]).sequence
            != (#[trigger] rest[j]).sequence by {
            assert(rest[i] == issued[i] && rest[j] == issued[j]);
        }
        lemma_loc_cids_with(loc_cids, rest, seq);
        assert(issued.last() == issued[issued.len() - 1]);
        assert forall|i: int| 0 <= i < issued.len() implies loc_cids_with(
            loc_cids,
            issued,
        ).contains_pair((#[trigger] issued[i]).sequence, issued[i].id) by {
            if i < rest.len() {
                assert(rest[i] == issued[i]);
            }
        }
        if exists|i: int| 0 <= i < rest.len() && (#[trigger] rest[i]).sequence == seq {
            let i = choose|i: int| 0 <= i < rest.len() && (#[trigger] rest[i]).sequence == seq;
            assert(issued[i].sequence == seq);
        }
    }
}

/// An association that is entered into a roster has one identifier, its first, by which its packets
/// find it, and keeps with whom it began. All other identifiers and associations are as they were.
pub proof fn law_new_member_is_found(
    before: Roster,
    ch: AssociationHandle,
    init_cid: AssociationId,
    loc_cid: AssociationId,
    remote: SocketAddr,
    id: AssociationId,
    h: usize,
    seq: u64,
)
    ensures
        ({
            let after = before.with_member(ch, init_cid, loc_cid, remote);
            &&& after.ids.contains_pair(loc_cid, ch)
            &&& id != loc_cid ==> after.ids.contains_key(id) == before.ids.contains_key(id) && (
            before.ids.contains_key(id) ==> after.ids[id] == before.ids[id])
            &&& after.members.contains_key(ch.0)
            &&& after.members[ch.0].init_cid == init_cid
            &&& after.members[ch.0].cids_issued == 0
            &&& after.members[ch.0].initial_remote == remote
            &&& after.members[ch.0].loc_cids.contains_key(seq) == (seq == 0)
            &&& after.members[ch.0].loc_cids[0] == loc_cid
            &&& h != ch.0 ==> after.members.contains_key(h) == before.members.contains_key(h) && (
            before.members.contains_key(h) ==> after.members[h] == before.members[h])
        }),
{
}

/// What an event of an association makes of the roster. Identifiers that it needs are given out: as
/// many as it asks for, each of them new and leading to it, numbered on from the last. An identifier
/// that it retires leads nowhere, and another one is given out for it only where it may get more. An
/// association that is gone has no identifiers and is not in the roster. No other association is
/// concerned.
pub proof fn law_events_are_answered(
    before: Roster,
    ch: AssociationHandle,
    event: EndpointEventInner,
    after: Roster,
    r: Option<AssociationEvent>,
    h: usize,
)
    requires
        before.wf(),
        may_handle(before, ch, event),
        handles(before, ch, event, after, r),
    ensures
        h != ch.0 ==> after.members.contains_key(h) == before.members.contains_key(h) && (
        before.members.contains_key(h) ==> after.members[h] == before.members[h]),
        event matches EndpointEventInner::NeedIdentifiers(now, n) ==> (r matches Some(e)
            && e.0 matches AssociationEventInner::NewIdentifiers(ids, at) && at == now
            && ids@.len() == n && gives_out(before, ch, ids@, after)),
        event matches EndpointEventInner::RetireAssociationId(now, seq, more) ==> {
            let had = before.members.contains_key(ch.0)
                && before.members[ch.0].loc_cids.contains_key(seq);
            &&& !had ==> after == before && r is None
            &&& had && !more ==> r is None && retires(before, ch, seq, after)
            &&& had && more ==> (r matches Some(e)
                && e.0 matches AssociationEventInner::NewIdentifiers(ids, at) && at == now
                && ids@.len() == 1 && exists|mid: Roster| #[trigger]
                retires(before, ch, seq, mid) && gives_out(mid, ch, ids@, after))
        },
        event == EndpointEventInner::Drained ==> {
            &&& r is None
            &&& !after.members.contains_key(ch.0)
            &&& forall|id: AssociationId| #[trigger]
                after.ids.contains_key(id) == (before.ids.contains_key(id) && before.ids[id] != ch)
            &&& forall|id: AssociationId| #[trigger]
                after.ids.contains_key(id) ==> after.ids[id] == before.ids[id]
        },
{
    match event {
        EndpointEventInner::NeedIdentifiers(now, n) => {
            if let Some(AssociationEvent(AssociationEventInner::NewIdentifiers(ids, _))) = r {
                lemma_gives_out(before, ch, ids@, after);
            }
        },
        EndpointEventInner::RetireAssociationId(now, seq, more) => {
            if before.owns(ch.0, seq) {
                let mid = before.without_id(ch, seq);
                assert(before.ids.contains_pair(before.members[ch.0].loc_cids[seq], ch));
                assert(retires(before, ch, seq, mid));
                if more {
                    if let Some(
                        AssociationEvent(AssociationEventInner::NewIdentifiers(ids, _)),
                    ) = r {
                        lemma_gives_out(mid, ch, ids@, after);
                    }
                }
            }
        },
        EndpointEventInner::Drained => {
            assert forall|id: AssociationId| #[trigger]
                after.ids.contains_key(id) == (before.ids.contains_key(id) && before.ids[id]
                    != ch) by {
                let own = before.members[ch.0].loc_cids;
                if before.ids.contains_key(id) && before.ids[id] == ch {
                    let s = choose|s: u64| #[trigger]
                        before.owns(before.ids[id].0, s)
                            && before.members[before.ids[id].0].loc_cids[s] == id;
                    assert(own.contains_key(s) && own[s] == id);
                    assert(own.values().contains(id));
                }
                if own.values().contains(id) {
                    let s = choose|s: u64| #[trigger] own.contains_key(s) && own[s] == id;
                    assert(before.owns(ch.0, s));
                }
            }
        },
    }
}

/// Whether `after` is the roster `before` with those identifiers given out to an association: they
/// were not in use, no two are alike, they are numbered on from the last one given out, and lead to the
/// association. What else led somewhere leads there still.
pub open spec fn gives_out(
    before: Roster,
    ch: AssociationHandle,
    ids: Seq<IssuedAid>,
    after: Roster,
) -> bool {
    &&& forall|i: int|
        0 <= i < ids.len() ==> {
            &&& !before.ids.contains_key((#[trigger] ids[i]).id)
            &&& after.ids.contains_pair(ids[i].id, ch)
            &&& ids[i].sequence == before.members[ch.0].cids_issued + i + 1
            &&& after.members[ch.0].loc_cids.contains_pair(ids[i].sequence, ids[i].id)
        }
    &&& forall|i: int, j: int|
        0 <= i < j < ids.len() ==> (#[trigger] ids[i]).id != (#[trigger] ids[j]).id
    &&& forall|id: AssociationId| #[trigger]
        before.ids.contains_key(id) ==> after.ids.contains_pair(id, before.ids[id])
    &&& forall|id: AssociationId| #[trigger]
        after.ids.contains_key(id) ==> before.ids.contains_key(id) || exists|i: int|
            0 <= i < ids.len() && (#[trigger] ids[i]).id == id
    &&& ids.len() > 0 ==> after.members[ch.0].cids_issued == before.members[ch.0].cids_issued
        + ids.len() && after.members[ch.0].init_cid == before.members[ch.0].init_cid
        && after.members[ch.0].initial_remote == before.members[ch.0].initial_remote
    &&& forall|seq: u64| #[trigger]
        before.members[ch.0].loc_cids.contains_key(seq) && seq <= before.members[ch.0].cids_issued
            ==> after.members[ch.0].loc_cids.contains_pair(seq, before.members[ch.0].loc_cids[seq])
}

/// Whether `after` is the roster `before` with one identifier of an association taken out of use.
pub open spec fn retires(before: Roster, ch: AssociationHandle, seq: u64, after: Roster) -> bool {
    let gone = before.members[ch.0].loc_cids[seq];
    &&& !after.ids.contains_key(gone)
    &&& forall|id: AssociationId| #[trigger]
        after.ids.contains_key(id) == (before.ids.contains_key(id) && id != gone)
    &&& forall|id: AssociationId| #[trigger]
        after.ids.contains_key(id) ==> after.ids[id] == before.ids[id]
    &&& after.members.contains_key(ch.0)
    &&& after.members[ch.0].loc_cids == before.members[ch.0].loc_cids.remove(seq)
    &&& after.members[ch.0].cids_issued == before.members[ch.0].cids_issued
    &&& after.members[ch.0].init_cid == before.members[ch.0].init_cid
    &&& after.members[ch.0].initial_remote == before.members[ch.0].initial_remote
}

proof fn lemma_gives_out(before: Roster, ch: AssociationHandle, ids: Seq<IssuedAid>, after: Roster)
    requires
        before.can_issue(ch, ids),
        after == before.with_issued(ch, ids),
        ids.len() > 0 ==> before.members[ch.0].cids_issued + ids.len() <= u64::MAX,
    ensures
        gives_out(before, ch, ids, after),
{
    let had = before.members[ch.0];
    if ids.len() > 0 {
        assert forall|i: int, j: int| 0 <= i < j < ids.len() implies (#[trigger] ids[i]).sequence
            != (#[trigger] ids[j]).sequence by {}
        lemma_loc_cids_with(had.loc_cids, ids, 0);
        assert forall|i: int| 0 <= i < ids.len() implies after.ids.contains_pair(
            (#[trigger] ids[i]).id,
            ch,
        ) by {
            lemma_ids_with(before.ids, ids, ch, ids[i].id);
        }
        assert forall|id: AssociationId| #[trigger]
            before.ids.contains_key(id) implies after.ids.contains_pair(id, before.ids[id]) by {
            lemma_ids_with(before.ids, ids, ch, id);
        }
        assert forall|id: AssociationId| #[trigger]
            after.ids.contains_key(id) implies before.ids.contains_key(id) || exists|i: int|
            0 <= i < ids.len() && (#[trigger] ids[i]).id == id by {
            lemma_ids_with(before.ids, ids, ch, id);
        }
        assert forall|seq: u64| #[trigger]
            had.loc_cids.contains_key(seq) && seq
                <= had.cids_issued implies after.members[ch.0].loc_cids.contains_pair(
            seq,
            had.loc_cids[seq],
        ) by {
            lemma_loc_cids_with(had.loc_cids, ids, seq);
        }
    }
}

/// Where an association is gone, nothing leads to it by its first identifier or by its first address
/// any more, and what leads elsewhere by these stays. Other events leave both alone. The endpoint
/// keeps what it has to send, its configuration and whether it takes new connections.
pub proof fn law_drained_association_is_not_found(
    before: Endpoint,
    ch: AssociationHandle,
    event: EndpointEventInner,
    after: Endpoint,
    r: Option<AssociationEvent>,
    id: AssociationId,
)
    requires
        answers_event(before, ch, event, after, r),
    ensures
        event == EndpointEventInner::Drained ==> {
            let member = before.roster().members[ch.0];
            &&& !after.connection_ids_initial@.contains_key(member.init_cid)
            &&& id != member.init_cid ==> after.connection_ids_initial@.contains_key(id)
                == before.connection_ids_initial@.contains_key(id) && (
            before.connection_ids_initial@.contains_key(id) ==> after.connection_ids_initial@[id]
                == before.connection_ids_initial@[id])
            &&& after.connection_remotes@ == before.connection_remotes@.filter(
                |entry: (SocketAddr, AssociationHandle)| entry.0 != member.initial_remote,
            )
        },
        event != EndpointEventInner::Drained ==> after.connection_ids_initial
            == before.connection_ids_initial && after.connection_remotes
            == before.connection_remotes,
        after.transmits == before.transmits && after.config == before.config && after.server_config
            == before.server_config && after.reject_new_connections
            == before.reject_new_connections,
{
    if event == EndpointEventInner::Drained {
        let remote = before.roster().members[ch.0].initial_remote;
        lemma_filter_same(
            before.connection_remotes@,
            is_other_remote(remote),
            |entry: (SocketAddr, AssociationHandle)| entry.0 != remote,
        );
    }
}

/// A new endpoint knows no identifiers, addresses and associations, has nothing to send, takes new
/// connections, goes by its configuration, and has drawn no identifier yet.
pub proof fn law_new_endpoint_is_empty(
    e: Endpoint,
    config: Arc<EndpointConfig>,
    server_config: Option<Arc<ServerConfig>>,
    id: AssociationId,
    h: usize,
)
    requires
        e.is_new(config, server_config),
    ensures
        !e.connection_ids@.contains_key(id),
        !e.connection_ids_initial@.contains_key(id),
        !e.roster().members.contains_key(h),
        e.connection_remotes@.len() == 0,
        e.transmits@.len() == 0,
        !e.reject_new_connections,
        e.config == config,
        e.server_config == server_config,
        e.local_cid_generator.drawn().len() == 0,
        config.aid_generator_factory.factory.creates(e.local_cid_generator.generator()),
{
    assert(!e.roster().ids.contains_key(id));
}

/// An endpoint is full once more identifiers are in use than half and a quarter of the greatest one.
pub proof fn law_limit_of_identifiers()
    ensures
        MAX_IDENTIFIERS == u32::MAX / 2 + u32::MAX / 4,
{
}

/// What an endpoint keeps of an association is in the roster as it is kept, and the table of
/// identifiers is the endpoint's.
pub proof fn law_value_of_a_roster(e: Endpoint, m: AssociationMeta, h: usize)
    ensures
        m@ == (Member {
            init_cid: m.init_cid,
            cids_issued: m.cids_issued,
            loc_cids: m.loc_cids@,
            initial_remote: m.initial_remote,
        }),
        e.roster().ids == e.connection_ids@,
        e.roster().members.contains_key(h) == slab_entries(e.connections).contains_key(h),
        slab_entries(e.connections).contains_key(h) ==> e.roster().members[h] == slab_entries(
            e.connections,
        )[h]@,
{
}

} // verus!
