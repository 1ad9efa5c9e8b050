//! Accepting an invite: what goes out, and what is remembered of what comes back.
//!
//! The events that an acceptor sends along are shared identity events of the workspace of the
//! invite, and nothing else. What came back on the stream names connections; their route is the
//! address that was dialled.
use vstd::prelude::*;
use crate::bytes::{contains_id, copy_bytes, is_id, EventId};
use crate::connection_facts::{identity_bootstrap, is_identity_bootstrap_event};
use crate::connections::{transport_target_row, ConnectionId};
use crate::events::{
    admitted_batch, proposal_views, run, CommandOutput, EventRegistry, ProposalView, ProposedEvent,
};
use crate::schema::{collected, lemma_collected_all, lemma_collected_at, lemma_collected_step};
use crate::store::{Store, StoreState};
use crate::table::key_views;
use crate::tables::{
    law_added_rows_are_there, row_views, rows_added, RowView, Rows, TableName, TableRow,
};
use crate::text::{prefixed, text};
use crate::transit_out::{plus, remember_connection_route, route_remembered};
use crate::types::{EventRecord, RecordView};

verus! {

// ---------------------------------------------------------------------------
// What goes out
// ---------------------------------------------------------------------------

/// The bytes of an event that goes out with an invite, or why it may not: it has to be a shared
/// identity event of the workspace of the invite.
pub open spec fn initial_inner(workspace_id: EventId, r: RecordView) -> Result<
    Seq<u8>,
    Seq<char>,
> {
    if !(r.scope is Shared) {
        Err("initial invite events must be shared events"@)
    } else if r.workspace_id != Some(workspace_id) {
        Err("initial invite event is outside invite workspace"@)
    } else {
        match identity_bootstrap(r.canonical_bytes) {
            Err(e) => Err(e),
            Ok(false) => Err("initial invite event must be an identity bootstrap event"@),
            Ok(true) => Ok(r.canonical_bytes),
        }
    }
}

/// The bytes of the events that go out with an invite, or why one of them may not.
pub open spec fn initial_inners(workspace_id: EventId, records: Seq<EventRecord>) -> Result<
    Seq<Seq<u8>>,
    Seq<char>,
> {
    collected(records.map_values(|r: EventRecord| initial_inner(workspace_id, r@)))
}

/// The bytes of the events that go out with an invite.
pub fn initial_bootstrap_inner_bytes(workspace_id: &EventId, records: &Vec<EventRecord>) -> (r:
    Result<Vec<Vec<u8>>, String>)
    ensures
        match initial_inners(*workspace_id, records@) {
            Ok(v) => r matches Ok(x) && key_views(x@) == v,
            Err(e) => r matches Err(x) && x@ == e,
        },
{
    let ghost items = records@.map_values(|r: EventRecord| initial_inner(*workspace_id, r@));
    let mut out: Vec<Vec<u8>> = Vec::new();
    let mut i: usize = 0;
    assert(key_views(out@) =~= Seq::empty());
    while i < records.len()
        invariant
            i <= records@.len(),
            items == records@.map_values(|r: EventRecord| initial_inner(*workspace_id, r@)),
            items.len() == records@.len(),
            collected(items.take(i as int)) == Ok::<Seq<Seq<u8>>, Seq<char>>(key_views(out@)),
        decreases records.len() - i,
    {
        let record = &records[i];
        proof {
            assert(items[i as int] == initial_inner(*workspace_id, record@));
            lemma_collected_step(items, i as int);
        }
        if !record.scope.is_shared() {
            return Err(text("initial invite events must be shared events"));
        }
        if !is_id(&record.workspace_id, workspace_id) {
            return Err(text("initial invite event is outside invite workspace"));
        }
        match is_identity_bootstrap_event(record.canonical_bytes.as_slice()) {
            Err(e) => {
                return Err(e);
            },
            Ok(false) => {
                return Err(text("initial invite event must be an identity bootstrap event"));
            },
            Ok(true) => {},
        }
        let bytes = copy_bytes(record.canonical_bytes.as_slice());
        let ghost before = out@;
        out.push(bytes);
        assert(key_views(out@) =~= key_views(before).push(bytes@));
        i = i + 1;
    }
    assert(items.take(i as int) =~= items);
    Ok(out)
}

/// An invite that initial events go out with has to be scoped to an identity.
pub fn check_identity_scope(identity_scope: bool) -> (r: Result<(), String>)
    ensures
        r is Ok == identity_scope,
        r matches Err(e) ==> e@ == "initial invite events require an identity-scoped invite"@,
{
    if identity_scope {
        Ok(())
    } else {
        Err(text("initial invite events require an identity-scoped invite"))
    }
}

// ---------------------------------------------------------------------------
// Recording
// ---------------------------------------------------------------------------

/// What admitting some events under a name leaves and returns.
pub open spec fn admitted_as<R: EventRegistry>(
    reg: &R,
    before: StoreState,
    events: Seq<ProposalView>,
    what: Seq<char>,
    after: StoreState,
    r: Result<(), Seq<char>>,
) -> bool {
    match admitted_batch(reg, before, events) {
        Ok((end, _)) => r is Ok && after == end,
        Err(e) => r == Err::<(), Seq<char>>(what + e) && after == before,
    }
}

fn admit_as<R: EventRegistry>(
    store: &mut Store,
    registry: &R,
    events: Vec<ProposedEvent>,
    what: &str,
) -> (r: Result<(), String>)
    requires
        old(store).wf(),
    ensures
        final(store).wf(),
        admitted_as(
            registry,
            old(store)@,
            proposal_views(events@),
            what@,
            final(store)@,
            match r {
                Ok(_) => Ok(()),
                Err(e) => Err(e@),
            },
        ),
{
    match run(store, registry, CommandOutput { value: (), events }) {
        Ok(_) => Ok(()),
        Err(e) => Err(prefixed(what, e)),
    }
}

/// What recording a request leaves and returns: where the caller keeps listening, the address
/// becomes the route of the connection.
pub open spec fn request_recorded<R: EventRegistry>(
    reg: &R,
    before: StoreState,
    events: Seq<ProposalView>,
    route: Option<(EventId, Seq<u8>)>,
    after: StoreState,
    r: Result<(), String>,
) -> bool {
    match admitted_batch(reg, before, events) {
        Err(e) => {
            &&& r matches Err(x) && x@ == "record connection request: "@ + e
            &&& after == before
        },
        Ok((end, _)) => {
            &&& r is Ok
            &&& after == match route {
                None => end,
                Some((connection_id, addr)) => StoreState {
                    rows: route_remembered(end.rows, connection_id, addr),
                    ..end
                },
            }
        },
    }
}

/// The route that a request leaves: its address, where a listener runs here. A single exchange
/// cannot use it again.
pub fn route_to_keep(listening: bool, connection_id: ConnectionId, addr: Vec<u8>) -> (r: Option<
    (ConnectionId, Vec<u8>),
>)
    ensures
        r is Some <==> listening,
        r matches Some((id, kept)) ==> id == connection_id && kept == addr,
{
    if listening {
        Some((connection_id, addr))
    } else {
        None
    }
}

/// Record the events of a connection request, and its route where there is one to keep.
pub fn record_request<R: EventRegistry>(
    store: &mut Store,
    registry: &R,
    events: Vec<ProposedEvent>,
    route: Option<(ConnectionId, Vec<u8>)>,
) -> (r: Result<(), String>)
    requires
        old(store).wf(),
    ensures
        final(store).wf(),
        request_recorded(
            registry,
            old(store)@,
            proposal_views(events@),
            match route {
                None => None,
                Some((c, a)) => Some((c, a@)),
            },
            final(store)@,
            r,
        ),
{
    match admit_as(store, registry, events, "record connection request: ") {
        Ok(_) => {},
        Err(e) => {
            return Err(e);
        },
    }
    match route {
        Some((connection_id, addr)) => {
            remember_connection_route(store, &connection_id, addr.as_slice());
        },
        None => {},
    }
    Ok(())
}

/// What recording the acceptance of an invite leaves and returns: first the local endpoint,
/// where it is new, then the acceptance.
pub open spec fn acceptance_recorded<R: EventRegistry>(
    reg: &R,
    before: StoreState,
    endpoint: Seq<ProposalView>,
    accepted: Seq<ProposalView>,
    after: StoreState,
    r: Result<(), String>,
) -> bool {
    let first = if endpoint.len() == 0 {
        Ok(before)
    } else {
        match admitted_batch(reg, before, endpoint) {
            Ok((end, _)) => Ok(end),
            Err(e) => Err("record local endpoint: "@ + e),
        }
    };
    match first {
        Err(e) => {
            &&& r matches Err(x) && x@ == e
            &&& after == before
        },
        Ok(mid) => match admitted_batch(reg, mid, accepted) {
            Err(e) => {
                &&& r matches Err(x) && x@ == "record invite bootstrap acceptance: "@ + e
                &&& after == mid
            },
            Ok((end, _)) => {
                &&& r is Ok
                &&& after == end
            },
        },
    }
}

/// Record that this device accepted an invite.
pub fn record_invite_acceptance<R: EventRegistry>(
    store: &mut Store,
    registry: &R,
    endpoint: Vec<ProposedEvent>,
    accepted: Vec<ProposedEvent>,
) -> (r: Result<(), String>)
    requires
        old(store).wf(),
    ensures
        final(store).wf(),
        acceptance_recorded(
            registry,
            old(store)@,
            proposal_views(endpoint@),
            proposal_views(accepted@),
            final(store)@,
            r,
        ),
{
    assert(proposal_views(endpoint@).len() == endpoint@.len());
    if endpoint.len() > 0 {
        match admit_as(store, registry, endpoint, "record local endpoint: ") {
            Ok(_) => {},
            Err(e) => {
                return Err(e);
            },
        }
    }
    admit_as(store, registry, accepted, "record invite bootstrap acceptance: ")
}

// ---------------------------------------------------------------------------
// What comes back
// ---------------------------------------------------------------------------

/// What an exchange on one stream counted, and the connections that it named.
#[derive(Debug, Clone, PartialEq, Eq)]
pub struct ExchangeState {
    pub sent_events: usize,
    pub received_events: usize,
    pub connection_ids: Vec<ConnectionId>,
}

/// Some ids with the first `n` of some more, each one once.
pub open spec fn ids_joined(known: Seq<EventId>, more: Seq<EventId>, n: int) -> Seq<EventId>
    decreases n,
{
    if n <= 0 {
        known
    } else {
        let p = ids_joined(known, more, n - 1);
        if p.contains(more[n - 1]) {
            p
        } else {
            p.push(more[n - 1])
        }
    }
}

impl ExchangeState {
    /// An exchange in which nothing happened yet.
    pub fn new() -> (r: ExchangeState)
        ensures
            r.sent_events == 0,
            r.received_events == 0,
            r.connection_ids@ == Seq::<EventId>::empty(),
    {
        ExchangeState { sent_events: 0, received_events: 0, connection_ids: Vec::new() }
    }

    /// Count frames that went out.
    pub fn note_sent(&mut self, frames: usize)
        ensures
            *final(self) == (ExchangeState {
                sent_events: plus(old(self).sent_events, frames),
                ..*old(self)
            }),
    {
        self.sent_events = self.sent_events.saturating_add(frames);
    }

    /// Count events that came in, and remember the connections that they named.
    pub fn note_received(&mut self, events: usize, connection_ids: &Vec<ConnectionId>)
        ensures
            final(self).sent_events == old(self).sent_events,
            final(self).received_events == plus(old(self).received_events, events),
            final(self).connection_ids@ == ids_joined(
                old(self).connection_ids@,
                connection_ids@,
                connection_ids@.len() as int,
            ),
    {
        self.received_events = self.received_events.saturating_add(events);
        let mut i: usize = 0;
        while i < connection_ids.len()
            invariant
                i <= connection_ids@.len(),
                self.sent_events == old(self).sent_events,
                self.received_events == plus(old(self).received_events, events),
                self.connection_ids@ == ids_joined(
                    old(self).connection_ids@,
                    connection_ids@,
                    i as int,
                ),
            decreases connection_ids.len() - i,
        {
            if !contains_id(&self.connection_ids, &connection_ids[i]) {
                self.connection_ids.push(connection_ids[i]);
            }
            i = i + 1;
        }
    }
}

/// The rows that make an address the route of some connections.
pub open spec fn route_rows(addr: Seq<u8>, ids: Seq<EventId>) -> Seq<RowView> {
    ids.map_values(
        |id: EventId| RowView { table: TableName::TransportTargets, key: id@, value: addr },
    )
}

/// The rows after an address became the route of some connections, each unless it has one.
pub open spec fn routes_remembered(m: Rows, addr: Seq<u8>, ids: Seq<EventId>) -> Rows {
    let rows = route_rows(addr, ids);
    rows_added(m, rows, rows.len() as int)
}

/// Make an address the route of some connections.
pub fn remember_connected_routes(
    store: &mut Store,
    addr: &[u8],
    connection_ids: &Vec<ConnectionId>,
)
    requires
        old(store).wf(),
    ensures
        final(store).wf(),
        final(store)@ == (StoreState {
            rows: routes_remembered(old(store)@.rows, addr@, connection_ids@),
            ..old(store)@
        }),
{
    let ghost ids = connection_ids@;
    let mut rows: Vec<TableRow> = Vec::new();
    let mut i: usize = 0;
    assert(row_views(rows@) =~= route_rows(addr@, ids.take(0)));
    while i < connection_ids.len()
        invariant
            i <= connection_ids@.len(),
            ids == connection_ids@,
            row_views(rows@) == route_rows(addr@, ids.take(i as int)),
        decreases connection_ids.len() - i,
    {
        let row = transport_target_row(&connection_ids[i], addr);
        let ghost before = rows@;
        rows.push(row);
        proof {
            assert(row_views(rows@) =~= row_views(before).push(row@));
            assert(ids.take(i + 1) =~= ids.take(i as int).push(ids[i as int]));
            assert(row_views(rows@) =~= route_rows(addr@, ids.take(i + 1)));
        }
        i = i + 1;
    }
    proof {
        assert(ids.take(i as int) =~= ids);
        assert(row_views(rows@).len() == rows@.len());
    }
    let _ = store.tables.insert_table_rows(&rows);
}

// ---------------------------------------------------------------------------
// Laws
// ---------------------------------------------------------------------------

/// Only shared identity events of the workspace of the invite go out with it.
pub proof fn law_invite_carries_identity_events_only(workspace_id: EventId, r: RecordView)
    requires
        initial_inner(workspace_id, r) is Ok,
    ensures
        r.scope is Shared,
        r.workspace_id == Some(workspace_id),
        identity_bootstrap(r.canonical_bytes) == Ok::<bool, Seq<char>>(true),
{
}

/// An exchange names every connection once.
pub proof fn law_connections_are_named_once(known: Seq<EventId>, more: Seq<EventId>, n: int)
    requires
        known.no_duplicates(),
        0 <= n <= more.len(),
    ensures
        ids_joined(known, more, n).no_duplicates(),
        forall|i: int| 0 <= i < n ==> ids_joined(known, more, n).contains(#[trigger] more[i]),
        forall|i: int|
            0 <= i < known.len() ==> ids_joined(known, more, n).contains(#[trigger] known[i]),
    decreases n,
{
    if n > 0 {
        law_connections_are_named_once(known, more, n - 1);
        let p = ids_joined(known, more, n - 1);
        let q = ids_joined(known, more, n);
        let x = more[n - 1];
        if !p.contains(x) {
            assert(q == p.push(x));
            assert(q[p.len() as int] == x);
            assert forall|y: EventId| p.contains(y) implies q.contains(y) by {
                let j = choose|j: int| 0 <= j < p.len() && p[j] == y;
                assert(q[j] == y);
            }
        }
        assert(q.contains(x));
    } else {
        assert forall|i: int| 0 <= i < known.len() implies known.contains(#[trigger] known[i]) by {
        }
    }
}

/// Every connection of an exchange gets its route: the address, unless it had one before. Nothing
/// else changes.
pub proof fn law_every_connection_gets_its_route(m: Rows, addr: Seq<u8>, ids: Seq<EventId>)
    ensures
        forall|i: int|
            0 <= i < ids.len() ==> {
                let key = (TableName::TransportTargets, (#[trigger] ids[i])@);
                &&& routes_remembered(m, addr, ids).contains_key(key)
                &&& m.contains_key(key) || routes_remembered(m, addr, ids)[key] == addr
            },
        forall|k: (TableName, Seq<u8>)| #[trigger]
            m.contains_key(k) ==> routes_remembered(m, addr, ids).contains_key(k)
                && routes_remembered(m, addr, ids)[k] == m[k],
        forall|k: (TableName, Seq<u8>)| #[trigger]
            routes_remembered(m, addr, ids).contains_key(k) && !m.contains_key(k) ==> k.0
                == TableName::TransportTargets && exists|i: int|
                0 <= i < ids.len() && (#[trigger] ids[i])@ == k.1,
{
    let rows = route_rows(addr, ids);
    law_added_rows_are_there(m, rows, rows.len() as int);
    assert forall|i: int| 0 <= i < ids.len() implies {
        let key = (TableName::TransportTargets, (#[trigger] ids[i])@);
        &&& routes_remembered(m, addr, ids).contains_key(key)
        &&& m.contains_key(key) || routes_remembered(m, addr, ids)[key] == addr
    } by {
        assert(rows[i].key == ids[i]@);
        let key = (TableName::TransportTargets, ids[i]@);
        assert(routes_remembered(m, addr, ids).contains_key(key));
    }
    assert forall|k: (TableName, Seq<u8>)| #[trigger]
        routes_remembered(m, addr, ids).contains_key(k) && !m.contains_key(k) implies k.0
        == TableName::TransportTargets && exists|i: int|
        0 <= i < ids.len() && (#[trigger] ids[i])@ == k.1 by {
        let i = choose|i: int|
            0 <= i < rows.len() && (#[trigger] rows[i]).table == k.0 && rows[i].key == k.1;
        assert(ids[i]@ == k.1);
    }
}

/// An invite goes out with the bytes of each of its events, in their order, or not at all. It goes
/// out where each of them is a shared identity event of its workspace.
pub proof fn law_invite_carries_every_event(workspace_id: EventId, records: Seq<EventRecord>)
    ensures
        initial_inners(workspace_id, records) matches Ok(inners) ==> inners.len() == records.len()
            && forall|i: int|
            0 <= i < records.len() ==> inners[i] == (#[trigger] records[i])@.canonical_bytes,
        initial_inners(workspace_id, records) is Ok <==> forall|i: int|
            0 <= i < records.len() ==> {
                &&& (#[trigger] records[i])@.scope is Shared
                &&& records[i]@.workspace_id == Some(workspace_id)
                &&& identity_bootstrap(records[i]@.canonical_bytes) == Ok::<bool, Seq<char>>(true)
            },
{
    let items = records.map_values(|r: EventRecord| initial_inner(workspace_id, r@));
    lemma_collected_at(items);
    lemma_collected_all(items);
    assert forall|i: int| 0 <= i < records.len() implies (#[trigger] records[i], items[i]).1
        == initial_inner(workspace_id, records[i]@) by {}
    if initial_inners(workspace_id, records) is Err {
        let i = choose|i: int| 0 <= i < items.len() && (#[trigger] items[i]) is Err;
        let r = records[i];
        assert(initial_inner(workspace_id, r@) is Err);
    } else {
        assert forall|i: int| 0 <= i < records.len() implies {
            &&& (#[trigger] records[i])@.scope is Shared
            &&& records[i]@.workspace_id == Some(workspace_id)
            &&& identity_bootstrap(records[i]@.canonical_bytes) == Ok::<bool, Seq<char>>(true)
        } by {
            assert(items[i] is Ok);
        }
    }
}

} // verus!
