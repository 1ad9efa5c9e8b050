//! Starting a round with one quiet peer at a time.
//!
//! The side whose endpoint sorts last starts no rounds by itself. So that what is new there does
//! not wait for the other side, one such peer is taken per turn, in rotation, and a round is
//! started with that peer alone: a slow one holds up none of the others.
use vstd::prelude::*;
use crate::bytes::{id_lt, lemma_lex_irreflexive, lemma_lex_transitive, lex_lt, EventId};
use crate::connections::{
    connection_ids_with_routes, ids_ascend, law_routed_connections_have_targets, remote_endpoint,
    remote_endpoint_of, routed_connections, ConnectionId,
};
use crate::endpoints::{local_endpoint, local_endpoint_of};
use crate::events::ProposalView;
use crate::recording::{enqueue_proposed_events, proposals_queued};
use crate::store::{Store, StoreState};
use crate::sync::{
    compare_proposal, index_prepared, opening_for, starts_round, Output, SyncSelection,
    DEFAULT_INDEX_BATCH,
};
use crate::sync_events::CompareEvent;
use crate::sync_index::{root_range, IndexState, SyncIndex};
use crate::table::countable;
use crate::tables::{keys_of, Rows, TableName};
use crate::text::text;

verus! {

// ---------------------------------------------------------------------------
// The rotation
// ---------------------------------------------------------------------------

/// Where the rotation stands: the peer that was taken last.
#[derive(Debug, Clone, Copy, PartialEq, Eq)]
pub struct PeerCursor {
    last: Option<ConnectionId>,
}

impl View for PeerCursor {
    type V = Option<EventId>;

    closed spec fn view(&self) -> Option<EventId> {
        self.last
    }
}

/// The first of some peers, from the `i`-th on, that comes after one.
pub open spec fn first_after(peers: Seq<EventId>, previous: EventId, i: int) -> Option<EventId>
    decreases peers.len() - i,
{
    if i < 0 || i >= peers.len() {
        None
    } else if lex_lt(previous@, peers[i]@) {
        Some(peers[i])
    } else {
        first_after(peers, previous, i + 1)
    }
}

/// The peer that comes next: the first one after the last one, or else the first of all.
pub open spec fn next_peer(last: Option<EventId>, peers: Seq<EventId>) -> Option<EventId> {
    if peers.len() == 0 {
        None
    } else {
        match last {
            None => Some(peers[0]),
            Some(previous) => match first_after(peers, previous, 0) {
                Some(peer) => Some(peer),
                None => Some(peers[0]),
            },
        }
    }
}

impl PeerCursor {
    /// A rotation that starts with the first peer.
    pub fn new() -> (c: PeerCursor)
        ensures
            c@ is None,
    {
        PeerCursor { last: None }
    }

    /// Take the next peer. Without peers the rotation stays where it is.
    pub fn pick_next(&mut self, peers: &[ConnectionId]) -> (r: Option<ConnectionId>)
        ensures
            r == next_peer(old(self)@, peers@),
            final(self)@ == (if peers@.len() == 0 {
                old(self)@
            } else {
                r
            }),
    {
        if peers.len() == 0 {
            return None;
        }
        match self.last {
            Some(previous) => {
                let mut i: usize = 0;
                while i < peers.len()
                    invariant
                        i <= peers@.len(),
                        peers@.len() > 0,
                        old(self)@ == Some(previous),
                        first_after(peers@, previous, 0) == first_after(
                            peers@,
                            previous,
                            i as int,
                        ),
                    decreases peers.len() - i,
                {
                    if id_lt(&previous, &peers[i]) {
                        self.last = Some(peers[i]);
                        return Some(peers[i]);
                    }
                    i = i + 1;
                }
            },
            None => {},
        }
        self.last = Some(peers[0]);
        Some(peers[0])
    }
}

// ---------------------------------------------------------------------------
// The peers
// ---------------------------------------------------------------------------

/// A peer that this side starts no rounds with by itself. One whose endpoint is not known is
/// none.
pub open spec fn is_quiet(m: Rows, local: EventId, connection_id: EventId) -> bool {
    remote_endpoint_of(m, connection_id) matches Ok(remote) && !starts_round(local, remote)
}

/// The quiet peers among some connections.
pub open spec fn quiet_peers(m: Rows, local: EventId, connections: Seq<EventId>) -> Seq<EventId> {
    connections.filter(|c: EventId| is_quiet(m, local, c))
}

/// The quiet peers with a route, in the order of their ids. A device without a local endpoint
/// has none.
pub open spec fn peers_of(m: Rows) -> Result<Seq<EventId>, Seq<char>> {
    if !m.contains_key((TableName::LocalEndpoint, Seq::<u8>::empty())) {
        Ok(Seq::empty())
    } else {
        match local_endpoint_of(m) {
            Err(e) => Err(e),
            Ok(local) => match routed_connections(m) {
                Err(e) => Err(e),
                Ok(connections) => Ok(quiet_peers(m, local.endpoint, connections)),
            },
        }
    }
}

/// List the quiet peers with a route.
pub fn routed_peers(store: &Store) -> (r: Result<Vec<ConnectionId>, String>)
    requires
        store.wf(),
    ensures
        match peers_of(store@.rows) {
            Ok(v) => r matches Ok(x) && x@ == v,
            Err(e) => r matches Err(x) && x@ == e,
        },
        r matches Ok(x) ==> ids_ascend(x@),
{
    let mut peers: Vec<ConnectionId> = Vec::new();
    let empty: Vec<u8> = Vec::new();
    assert(empty@ =~= Seq::<u8>::empty());
    if !store.tables.has_row(TableName::LocalEndpoint, empty.as_slice()) {
        return Ok(peers);
    }
    let local = match local_endpoint(store) {
        Ok(local) => local.endpoint,
        Err(e) => {
            return Err(e);
        },
    };
    let connections = match connection_ids_with_routes(store) {
        Ok(connections) => connections,
        Err(e) => {
            return Err(e);
        },
    };
    let ghost m = store@.rows;
    let ghost keep = |c: EventId| is_quiet(m, local, c);
    let mut i: usize = 0;
    proof {
        reveal(Seq::filter);
        assert(connections@.take(0).filter(keep) =~= Seq::<EventId>::empty());
    }
    while i < connections.len()
        invariant
            store.wf(),
            m == store@.rows,
            i <= connections@.len(),
            keep == (|c: EventId| is_quiet(m, local, c)),
            peers@ == connections@.take(i as int).filter(keep),
            ids_ascend(connections@),
            ids_ascend(peers@),
            forall|j: int|
                0 <= j < peers@.len() ==> exists|k: int|
                    0 <= k < i && (#[trigger] peers@[j]) == #[trigger] connections@[k],
        decreases connections.len() - i,
    {
        proof {
            crate::sync_index::lemma_filter_next(connections@, keep, i as int);
        }
        match remote_endpoint(store, &connections[i]) {
            Ok(remote) => {
                if !id_lt(&local, &remote) {
                    let ghost before = peers@;
                    peers.push(connections[i]);
                    proof {
                        assert forall|j: int, k: int| 0 <= j < k < peers@.len() implies lex_lt(
                            #[trigger] peers@[j]@,
                            #[trigger] peers@[k]@,
                        ) by {
                            assert(peers@[j] == before[j]);
                            if k < before.len() {
                                assert(peers@[k] == before[k]);
                            } else {
                                let at = choose|at: int|
                                    0 <= at < i && before[j] == #[trigger] connections@[at];
                                assert(lex_lt(connections@[at]@, connections@[i as int]@));
                            }
                        }
                        assert forall|j: int| 0 <= j < peers@.len() implies exists|k: int|
                            0 <= k < i + 1 && (#[trigger] peers@[j])
                                == #[trigger] connections@[k] by {
                            if j < before.len() {
                                assert(peers@[j] == before[j]);
                                let at = choose|at: int|
                                    0 <= at < i && before[j] == #[trigger] connections@[at];
                                assert(peers@[j] == connections@[at]);
                            } else {
                                assert(peers@[j] == connections@[i as int]);
                            }
                        }
                    }
                }
            },
            Err(_) => {},
        }
        i = i + 1;
    }
    assert(connections@.take(i as int) =~= connections@);
    Ok(peers)
}

// ---------------------------------------------------------------------------
// A turn
// ---------------------------------------------------------------------------

/// Work of the supervisor.
#[derive(Debug, Clone, Copy, PartialEq, Eq)]
pub enum Work {
    /// Start a round with the next quiet peer.
    StartNextPeer { work_limit: usize },
}

/// What a turn did.
#[derive(Debug, Clone, Copy, PartialEq, Eq)]
pub struct SupervisorReport {
    pub considered_peers: usize,
    pub started_peer: Option<ConnectionId>,
    pub sent_events: usize,
}

/// Some comparisons as proposals.
pub open spec fn compare_proposals(compares: Seq<CompareEvent>) -> Seq<ProposalView> {
    compares.map_values(|c: CompareEvent| compare_proposal(c))
}

/// What a turn leaves and returns: without a quiet peer nothing happens; else the index is
/// prepared, a round is started with the peer whose turn it is, and its event is queued for
/// admission.
pub open spec fn turn_done(
    s0: StoreState,
    i0: IndexState,
    c0: Option<EventId>,
    s1: StoreState,
    i1: IndexState,
    c1: Option<EventId>,
    r: Result<SupervisorReport, String>,
) -> bool {
    match peers_of(s0.rows) {
        Err(e) => {
            &&& r matches Err(x) && x@ == e
            &&& s1 == s0
            &&& i1 == i0
            &&& c1 == c0
        },
        Ok(peers) => match next_peer(c0, peers) {
            None => {
                &&& r == Ok::<SupervisorReport, String>(
                    SupervisorReport { considered_peers: 0, started_peer: None, sent_events: 0 },
                )
                &&& s1 == s0
                &&& i1 == i0
                &&& c1 == c0
            },
            Some(peer) => {
                &&& c1 == Some(peer)
                &&& i1.deps == i0.deps
                &&& s1.events == s0.events
                &&& match index_prepared(
                    i0.entries,
                    s0.events.events,
                    s0.rows,
                    DEFAULT_INDEX_BATCH,
                ) {
                    Err((entries, m, e)) => {
                        &&& r matches Err(x) && x@ == e
                        &&& i1.entries == entries
                        &&& s1.rows == m
                    },
                    Ok((entries, m, _)) => {
                        &&& i1.entries == entries
                        &&& match opening_for(m, entries, peer, root_range()) {
                            Err(e) => {
                                &&& r matches Err(x) && x@ == e
                                &&& s1.rows == m
                            },
                            Ok(compares) => {
                                &&& r == Ok::<SupervisorReport, String>(
                                    SupervisorReport {
                                        considered_peers: peers.len() as usize,
                                        started_peer: Some(peer),
                                        sent_events: compares.len() as usize,
                                    },
                                )
                                &&& s1.rows == proposals_queued(m, compare_proposals(compares))
                            },
                        }
                    },
                }
            },
        },
    }
}

/// Run one turn.
pub fn run(store: &mut Store, index: &mut SyncIndex, cursor: &mut PeerCursor, work: Work) -> (r: Result<
    SupervisorReport,
    String,
>)
    requires
        old(store).wf(),
        old(index).wf(),
    ensures
        final(store).wf(),
        final(index).wf(),
        turn_done(
            old(store)@,
            old(index)@,
            old(cursor)@,
            final(store)@,
            final(index)@,
            final(cursor)@,
            r,
        ),
{
    match work {
        Work::StartNextPeer { .. } => start_next_peer(store, index, cursor),
    }
}

fn start_next_peer(store: &mut Store, index: &mut SyncIndex, cursor: &mut PeerCursor) -> (r: Result<
    SupervisorReport,
    String,
>)
    requires
        old(store).wf(),
        old(index).wf(),
    ensures
        final(store).wf(),
        final(index).wf(),
        turn_done(
            old(store)@,
            old(index)@,
            old(cursor)@,
            final(store)@,
            final(index)@,
            final(cursor)@,
            r,
        ),
{
    let peers = match routed_peers(store) {
        Ok(peers) => peers,
        Err(e) => {
            return Err(e);
        },
    };
    let connection_id = match cursor.pick_next(peers.as_slice()) {
        Some(connection_id) => connection_id,
        None => {
            return Ok(
                SupervisorReport {
                    considered_peers: peers.len(),
                    started_peer: None,
                    sent_events: 0,
                },
            );
        },
    };
    let output = match crate::sync::run(
        store,
        index,
        crate::sync::Work::StartForConnection { connection_id, selection: SyncSelection::All },
    ) {
        Ok(output) => output,
        Err(e) => {
            return Err(e);
        },
    };
    match output {
        Output::Started(started) => {
            enqueue_proposed_events(store, &started.events);
            Ok(
                SupervisorReport {
                    considered_peers: peers.len(),
                    started_peer: Some(connection_id),
                    sent_events: started.value.sent_events,
                },
            )
        },
        _ => Err(text("peer supervisor expected Started output")),
    }
}

// ---------------------------------------------------------------------------
// Laws
// ---------------------------------------------------------------------------

proof fn lemma_first_after(peers: Seq<EventId>, k: int, i: int)
    requires
        ids_ascend(peers),
        0 <= k < peers.len(),
        0 <= i <= k + 1,
    ensures
        first_after(peers, peers[k], i) == (if k + 1 < peers.len() {
            Some(peers[k + 1])
        } else {
            None
        }),
    decreases k + 1 - i,
{
    if i <= k {
        if lex_lt(peers[k]@, peers[i]@) {
            lemma_lex_irreflexive(peers[k]@);
            if i < k {
                assert(lex_lt(peers[i]@, peers[k]@));
                lemma_lex_transitive(peers[k]@, peers[i]@, peers[k]@);
            }
        }
        lemma_first_after(peers, k, i + 1);
    } else if k + 1 < peers.len() {
        assert(lex_lt(peers[k]@, peers[k + 1]@));
    }
}

/// The rotation is fair: after each of the peers comes the one behind it, and after the last
/// one the first.
pub proof fn law_rotation_visits_every_peer(peers: Seq<EventId>, k: int)
    requires
        ids_ascend(peers),
        0 <= k < peers.len(),
    ensures
        next_peer(Some(peers[k]), peers) == Some(peers[(k + 1) % (peers.len() as int)]),
{
    lemma_first_after(peers, k, 0);
    let n = peers.len() as int;
    if k + 1 < n {
        assert((k + 1) % n == k + 1) by (nonlinear_arith)
            requires
                0 <= k + 1 < n,
        ;
    } else {
        assert((k + 1) % n == 0) by (nonlinear_arith)
            requires
                k + 1 == n,
                n > 0,
        ;
    }
}

/// Whatever peer was taken last, the next one is one of the peers.
pub proof fn law_next_peer_is_a_peer(last: Option<EventId>, peers: Seq<EventId>)
    requires
        peers.len() > 0,
    ensures
        next_peer(last, peers) matches Some(p) && peers.contains(p),
{
    assert(peers.contains(peers[0]));
    if let Some(previous) = last {
        lemma_first_after_is_a_peer(peers, previous, 0);
    }
}

proof fn lemma_first_after_is_a_peer(peers: Seq<EventId>, previous: EventId, i: int)
    requires
        0 <= i,
    ensures
        first_after(peers, previous, i) matches Some(p) ==> peers.contains(p),
    decreases peers.len() - i,
{
    if i < peers.len() {
        lemma_first_after_is_a_peer(peers, previous, i + 1);
    }
}

/// Whose turn comes: every routed peer whose endpoint is known and does not sort after the local
/// one, and no other. With these, and the peers that a plain start speaks to, no routed peer is
/// left out.
pub proof fn law_every_quiet_peer_gets_a_turn(m: Rows)
    requires
        countable(keys_of(m, TableName::TransportTargets)),
        m.contains_key((TableName::LocalEndpoint, Seq::<u8>::empty())),
    ensures
        peers_of(m) matches Ok(peers) ==> local_endpoint_of(m) is Ok && {
            let local = local_endpoint_of(m)->Ok_0.endpoint;
            forall|c: EventId| #[trigger]
                peers.contains(c) <==> m.contains_key((TableName::TransportTargets, c@)) && (
                remote_endpoint_of(m, c) matches Ok(remote) && !lex_lt(local@, remote@))
        },
{
    law_routed_connections_have_targets(m);
    if let Ok(peers) = peers_of(m) {
        let local = local_endpoint_of(m)->Ok_0.endpoint;
        let all = routed_connections(m)->Ok_0;
        let keep = |c: EventId| is_quiet(m, local, c);
        assert forall|c: EventId| #[trigger]
            peers.contains(c) <==> m.contains_key((TableName::TransportTargets, c@)) && (
            remote_endpoint_of(m, c) matches Ok(remote) && !lex_lt(local@, remote@)) by {
            if peers.contains(c) {
                let j = choose|j: int| 0 <= j < peers.len() && peers[j] == c;
                all.lemma_filter_pred(keep, j);
                all.lemma_filter_contains_rev(keep, c);
                assert(all.contains(c));
            }
            if m.contains_key((TableName::TransportTargets, c@)) && (remote_endpoint_of(
                m,
                c,
            ) matches Ok(remote) && !lex_lt(local@, remote@)) {
                assert(all.contains(c));
                let i = choose|i: int| 0 <= i < all.len() && all[i] == c;
                all.lemma_filter_contains(keep, i);
            }
        }
    }
}

/// Whoever was taken last, here still or not: the next one is the closest of the peers that sort
/// after it, and the first of all where none does.
pub proof fn law_next_peer_follows_the_last(last: EventId, peers: Seq<EventId>)
    requires
        peers.len() > 0,
        ids_ascend(peers),
    ensures
        next_peer(None, peers) == Some(peers[0]),
        next_peer(Some(last), peers) matches Some(next) && {
            &&& peers.contains(next)
            &&& (exists|i: int| 0 <= i < peers.len() && lex_lt(last@, (#[trigger] peers[i])@)) ==> {
                &&& lex_lt(last@, next@)
                &&& forall|i: int|
                    0 <= i < peers.len() && lex_lt(last@, (#[trigger] peers[i])@) ==> peers[i]
                        == next || lex_lt(next@, peers[i]@)
            }
            &&& (forall|i: int| 0 <= i < peers.len() ==> !lex_lt(last@, (#[trigger] peers[i])@))
                ==> next == peers[0]
        },
{
    law_next_peer_is_a_peer(Some(last), peers);
    lemma_first_after_exact(peers, last, 0);
}

proof fn lemma_first_after_exact(peers: Seq<EventId>, last: EventId, i: int)
    requires
        0 <= i <= peers.len(),
        ids_ascend(peers),
    ensures
        first_after(peers, last, i) is None <==> forall|k: int|
            i <= k < peers.len() ==> !lex_lt(last@, (#[trigger] peers[k])@),
        first_after(peers, last, i) matches Some(next) ==> {
            &&& lex_lt(last@, next@)
            &&& forall|k: int|
                i <= k < peers.len() && lex_lt(last@, (#[trigger] peers[k])@) ==> peers[k] == next
                    || lex_lt(next@, peers[k]@)
        },
    decreases peers.len() - i,
{
    if i < peers.len() {
        lemma_first_after_exact(peers, last, i + 1);
    }
}

} // verus!
