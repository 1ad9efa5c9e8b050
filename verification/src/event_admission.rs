//! Admission of canonical bytes: which bytes a transit envelope may carry, and the drain of
//! the queue that holds them.
//!
//! A row that was claimed is consumed whether it is accepted or rejected. What is wrong with
//! a rejected row is reported once the row is gone, so that it cannot poison the queue.
use vstd::prelude::*;
use crate::bytes::{contains_id, copy_bytes, id_eq, EventId};
use crate::connection_facts::{
    connection_scoped, decode_invite_secret, decode_request, decode_response, decoded_invite_secret,
    decoded_request, decoded_response, identity_bootstrap, is_connection_scoped_event,
    is_identity_bootstrap_event, is_request, is_response, is_type, RequestEvent, RequestView,
    TYPE_CONNECTION_REQUEST, TYPE_CONNECTION_RESPONSE,
};
use crate::endpoints::{is_mutual, mutual_workspace_ids};
use crate::events::{
    self, admitted_batch, lemma_tally_bounded, no_admission, received_views, AdmitReceivedRecords,
    AdmitReport, AdmitTally, EventRegistry, ProposalView, ReceivedRecord,
};
use crate::schema::{
    canonical_in_views, claim_canonical_in, claimed_canonical_in, CanonicalIn, CanonicalInView,
    ProvenanceView, TransitProvenance, TransitUnwrap, CANONICAL_IN,
};
use crate::store::{Store, StoreState};
use crate::tables::TableName;
use crate::text::text;
use crate::types::{
    ConnectionScope, EventScope, ReceiveAuthorization, ReceiveMetadata, ReceiveView, RecordView,
};

verus! {

// ---------------------------------------------------------------------------
// Invite authority
// ---------------------------------------------------------------------------

/// The request behind a connection, when both its response and the request are stored.
pub open spec fn request_behind(s: StoreState, connection_id: EventId) -> Result<
    Option<RequestView>,
    Seq<char>,
> {
    let events = s.events.events;
    if !events.contains_key(connection_id@) {
        Ok(None)
    } else {
        match decoded_response(events[connection_id@].canonical_bytes) {
            Err(_) => Err("connection id does not name a connection event"@),
            Ok(response) => if !events.contains_key(response.request_id@) {
                Ok(None)
            } else {
                match decoded_request(events[response.request_id@].canonical_bytes) {
                    Err(_) => Err("connection dependency is not a request event"@),
                    Ok(request) => Ok(Some(request)),
                }
            },
        }
    }
}

/// Find the request behind a connection.
fn invite_connection_request(store: &Store, connection_id: &EventId) -> (r: Result<
    Option<RequestEvent>,
    String,
>)
    requires
        store.wf(),
    ensures
        match request_behind(store@, *connection_id) {
            Ok(None) => r matches Ok(x) && x is None,
            Ok(Some(q)) => r matches Ok(x) && (x matches Some(y) && y@ == q),
            Err(e) => r matches Err(x) && x@ == e,
        },
{
    let bytes = match store.events.event_bytes(connection_id) {
        Some(bytes) => bytes,
        None => {
            return Ok(None);
        },
    };
    let response = match decode_response(bytes.as_slice()) {
        Ok(response) => response,
        Err(_) => {
            return Err(text("connection id does not name a connection event"));
        },
    };
    let bytes = match store.events.event_bytes(&response.request_id) {
        Some(bytes) => bytes,
        None => {
            return Ok(None);
        },
    };
    match decode_request(bytes.as_slice()) {
        Ok(request) => Ok(Some(request)),
        Err(_) => Err(text("connection dependency is not a request event")),
    }
}

/// The bootstrap hash of an invite secret that is scoped to a workspace.
pub open spec fn scoped_bootstrap_hash(
    s: StoreState,
    invite_secret_event_id: EventId,
    workspace_id: EventId,
) -> Result<Option<EventId>, Seq<char>> {
    let events = s.events.events;
    if !events.contains_key(invite_secret_event_id@) {
        Ok(None)
    } else {
        match decoded_invite_secret(events[invite_secret_event_id@].canonical_bytes) {
            Err(_) => Err("connection invite dependency is not an invite secret event"@),
            Ok(secret) => if secret.workspace_id == Some(workspace_id)
                && secret.invite_event_id is Some {
                Ok(Some(secret.bootstrap_hash))
            } else {
                Ok(None)
            },
        }
    }
}

/// Find the bootstrap hash of an invite secret that is scoped to a workspace.
fn invite_secret_bootstrap_hash(
    store: &Store,
    invite_secret_event_id: &EventId,
    workspace_id: &EventId,
) -> (r: Result<Option<EventId>, String>)
    requires
        store.wf(),
    ensures
        match scoped_bootstrap_hash(store@, *invite_secret_event_id, *workspace_id) {
            Ok(h) => r matches Ok(x) && x == h,
            Err(e) => r matches Err(x) && x@ == e,
        },
{
    let bytes = match store.events.event_bytes(invite_secret_event_id) {
        Some(bytes) => bytes,
        None => {
            return Ok(None);
        },
    };
    let secret = match decode_invite_secret(bytes.as_slice()) {
        Ok(secret) => secret,
        Err(_) => {
            return Err(text("connection invite dependency is not an invite secret event"));
        },
    };
    let in_scope = match &secret.workspace_id {
        Some(id) => id_eq(id, workspace_id),
        None => false,
    };
    if !in_scope || secret.invite_event_id.is_none() {
        return Ok(None);
    }
    Ok(Some(secret.bootstrap_hash))
}

/// A request runs between two endpoints, in either direction.
pub open spec fn between(q: RequestView, a: EventId, b: EventId) -> bool {
    (q.from_endpoint == a && q.to_endpoint == b) || (q.from_endpoint == b && q.to_endpoint == a)
}

/// Whether the invite behind a connection entitles its peer to the events of a workspace, or
/// why that cannot be told.
pub open spec fn invite_authorizes(
    s: StoreState,
    workspace_id: EventId,
    local_endpoint: EventId,
    sender_endpoint: EventId,
    connection_id: EventId,
) -> Result<bool, Seq<char>> {
    match request_behind(s, connection_id) {
        Err(e) => Err(e),
        Ok(None) => Ok(false),
        Ok(Some(request)) => if !between(request, local_endpoint, sender_endpoint) {
            Ok(false)
        } else {
            match scoped_bootstrap_hash(s, request.invite_secret_event_id, workspace_id) {
                Err(e) => Err(e),
                Ok(None) => Ok(false),
                Ok(Some(hash)) => Ok(request.bootstrap_hash == hash),
            }
        },
    }
}

/// Tell whether the invite behind a connection entitles its peer to the events of a
/// workspace.
fn invite_authorizes_shared_event(
    store: &Store,
    workspace_id: &EventId,
    local_endpoint: &EventId,
    sender_endpoint: &EventId,
    connection_id: &EventId,
) -> (r: Result<bool, String>)
    requires
        store.wf(),
    ensures
        match invite_authorizes(
            store@,
            *workspace_id,
            *local_endpoint,
            *sender_endpoint,
            *connection_id,
        ) {
            Ok(b) => r matches Ok(x) && x == b,
            Err(e) => r matches Err(x) && x@ == e,
        },
{
    let request = match invite_connection_request(store, connection_id) {
        Ok(Some(request)) => request,
        Ok(None) => {
            return Ok(false);
        },
        Err(e) => {
            return Err(e);
        },
    };
    let forward = id_eq(&request.from_endpoint, local_endpoint) && id_eq(
        &request.to_endpoint,
        sender_endpoint,
    );
    let backward = id_eq(&request.from_endpoint, sender_endpoint) && id_eq(
        &request.to_endpoint,
        local_endpoint,
    );
    if !forward && !backward {
        return Ok(false);
    }
    match invite_secret_bootstrap_hash(store, &request.invite_secret_event_id, workspace_id) {
        Ok(Some(hash)) => Ok(id_eq(&request.bootstrap_hash, &hash)),
        Ok(None) => Ok(false),
        Err(e) => Err(e),
    }
}

// ---------------------------------------------------------------------------
// Bytes out of a transit envelope
// ---------------------------------------------------------------------------

/// The receive metadata of an event that came out of a bootstrap envelope.
pub open spec fn received_with(p: ProvenanceView, authorization: ReceiveAuthorization) -> ReceiveView {
    ReceiveView {
        origin: p.origin,
        local_endpoint: p.local_endpoint,
        remote_endpoint: p.sender_endpoint,
        remember_route: p.remember_route,
        authorization,
    }
}

/// The record of some bytes, with how they were received.
pub open spec fn plain_record<R: EventRegistry>(
    reg: &R,
    bytes: Seq<u8>,
    receive: Option<ReceiveView>,
) -> Result<ProposalView, Seq<char>> {
    match reg.decoded(bytes) {
        Err(e) => Err(e),
        Ok(record) => Ok(ProposalView { record, receive }),
    }
}

/// What an envelope under an invite key may carry: identity events of its workspace.
pub open spec fn invite_bootstrap_record<R: EventRegistry>(
    reg: &R,
    bytes: Seq<u8>,
    workspace_id: EventId,
) -> Result<ProposalView, Seq<char>> {
    match reg.decoded(bytes) {
        Err(e) => Err(e),
        Ok(record) => if !(record.scope is Shared) {
            Err("invite bootstrap transit only accepts shared events"@)
        } else if record.workspace_id != Some(workspace_id) {
            Err("invite bootstrap transit rejected event outside invite workspace"@)
        } else {
            match identity_bootstrap(record.canonical_bytes) {
                Err(e) => Err(e),
                Ok(false) => Err(
                    "invite bootstrap transit only accepts identity bootstrap events"@,
                ),
                Ok(true) => Ok(ProposalView { record, receive: None }),
            }
        },
    }
}

/// What an established connection may carry: its sync events, and shared events of a
/// workspace that both endpoints belong to or that the invite behind the connection is for.
pub open spec fn connection_record<R: EventRegistry>(
    s: StoreState,
    reg: &R,
    bytes: Seq<u8>,
    p: ProvenanceView,
    connection_id: EventId,
) -> Result<ProposalView, Seq<char>> {
    if is_type(bytes, TYPE_CONNECTION_REQUEST) {
        Err("connection transit cannot carry connection requests"@)
    } else if is_type(bytes, TYPE_CONNECTION_RESPONSE) {
        Err("connection transit cannot carry connection responses"@)
    } else {
        match reg.decoded(bytes) {
            Err(e) => Err(e),
            Ok(record) => if connection_scoped(bytes) {
                Ok(
                    ProposalView {
                        record: RecordView {
                            scope: EventScope::Connection(
                                ConnectionScope::Incoming { connection_id },
                            ),
                            ..record
                        },
                        receive: None,
                    },
                )
            } else if !(record.scope is Shared) {
                Err("connection transit only accepts shared or connection-scoped events"@)
            } else {
                match record.workspace_id {
                    None => Err("transit shared in requires a workspace"@),
                    Some(workspace_id) => if is_mutual(
                        s.rows,
                        p.local_endpoint,
                        p.sender_endpoint,
                        workspace_id,
                    ) {
                        Ok(ProposalView { record, receive: None })
                    } else {
                        match invite_authorizes(
                            s,
                            workspace_id,
                            p.local_endpoint,
                            p.sender_endpoint,
                            connection_id,
                        ) {
                            Err(e) => Err(e),
                            Ok(true) => Ok(ProposalView { record, receive: None }),
                            Ok(false) => Err(
                                "transit shared in rejected event outside sender workspace"@,
                            ),
                        }
                    },
                }
            },
        }
    }
}

/// The record of bytes that came out of a transit envelope, or why the envelope may not carry
/// them.
pub open spec fn transit_record<R: EventRegistry>(
    s: StoreState,
    reg: &R,
    bytes: Seq<u8>,
    p: ProvenanceView,
) -> Result<ProposalView, Seq<char>> {
    match p.unwrapped_with {
        TransitUnwrap::Bootstrap => if is_type(bytes, TYPE_CONNECTION_REQUEST) {
            plain_record(
                reg,
                bytes,
                Some(received_with(p, ReceiveAuthorization::BootstrapInvite)),
            )
        } else if is_type(bytes, TYPE_CONNECTION_RESPONSE) {
            plain_record(
                reg,
                bytes,
                Some(received_with(p, ReceiveAuthorization::EndpointReceive)),
            )
        } else {
            Err("endpoint bootstrap transit only carries connection requests or responses"@)
        },
        TransitUnwrap::InviteBootstrap { bootstrap_hash, workspace_id, invite_event_id } =>
            invite_bootstrap_record(reg, bytes, workspace_id),
        TransitUnwrap::Connection { connection_id } => connection_record(
            s,
            reg,
            bytes,
            p,
            connection_id,
        ),
    }
}

fn decode_received<R: EventRegistry>(
    registry: &R,
    bytes: Vec<u8>,
    receive: ReceiveMetadata,
) -> (r: Result<ReceivedRecord, String>)
    ensures
        match plain_record(registry, bytes@, Some(receive@)) {
            Ok(v) => r matches Ok(x) && x@ == v,
            Err(e) => r matches Err(x) && x@ == e,
        },
{
    match registry.record_from_bytes(bytes) {
        Ok(record) => Ok(ReceivedRecord::with_receive(record, receive)),
        Err(e) => Err(e),
    }
}

/// Classify bytes that came out of a transit envelope.
pub fn record_from_transit_canonical_in<R: EventRegistry>(
    store: &Store,
    registry: &R,
    bytes: Vec<u8>,
    provenance: &TransitProvenance,
) -> (r: Result<ReceivedRecord, String>)
    requires
        store.wf(),
    ensures
        match transit_record(store@, registry, bytes@, provenance@) {
            Ok(v) => r matches Ok(x) && x@ == v,
            Err(e) => r matches Err(x) && x@ == e,
        },
{
    match provenance.unwrapped_with {
        TransitUnwrap::Bootstrap => {
            let origin = copy_bytes(provenance.origin.as_slice());
            if is_request(bytes.as_slice()) {
                let receive = ReceiveMetadata::bootstrap_invite(
                    origin,
                    provenance.local_endpoint,
                    provenance.sender_endpoint,
                    provenance.remember_route,
                );
                return decode_received(registry, bytes, receive);
            }
            if is_response(bytes.as_slice()) {
                let receive = ReceiveMetadata::endpoint_receive(
                    origin,
                    provenance.local_endpoint,
                    provenance.sender_endpoint,
                    provenance.remember_route,
                );
                return decode_received(registry, bytes, receive);
            }
            Err(text("endpoint bootstrap transit only carries connection requests or responses"))
        },
        TransitUnwrap::InviteBootstrap { workspace_id, .. } => record_from_invite_bootstrap(
            registry,
            bytes,
            &workspace_id,
        ),
        TransitUnwrap::Connection { connection_id } => record_from_connection(
            store,
            registry,
            bytes,
            provenance,
            &connection_id,
        ),
    }
}

fn record_from_invite_bootstrap<R: EventRegistry>(
    registry: &R,
    bytes: Vec<u8>,
    workspace_id: &EventId,
) -> (r: Result<ReceivedRecord, String>)
    ensures
        match invite_bootstrap_record(registry, bytes@, *workspace_id) {
            Ok(v) => r matches Ok(x) && x@ == v,
            Err(e) => r matches Err(x) && x@ == e,
        },
{
    let record = match registry.record_from_bytes(bytes) {
        Ok(record) => record,
        Err(e) => {
            return Err(e);
        },
    };
    if !record.scope.is_shared() {
        return Err(text("invite bootstrap transit only accepts shared events"));
    }
    let inside = match &record.workspace_id {
        Some(id) => id_eq(id, workspace_id),
        None => false,
    };
    if !inside {
        return Err(text("invite bootstrap transit rejected event outside invite workspace"));
    }
    match is_identity_bootstrap_event(record.canonical_bytes.as_slice()) {
        Ok(true) => Ok(ReceivedRecord::new(record)),
        Ok(false) => Err(text("invite bootstrap transit only accepts identity bootstrap events")),
        Err(e) => Err(e),
    }
}

fn record_from_connection<R: EventRegistry>(
    store: &Store,
    registry: &R,
    bytes: Vec<u8>,
    provenance: &TransitProvenance,
    connection_id: &EventId,
) -> (r: Result<ReceivedRecord, String>)
    requires
        store.wf(),
    ensures
        match connection_record(store@, registry, bytes@, provenance@, *connection_id) {
            Ok(v) => r matches Ok(x) && x@ == v,
            Err(e) => r matches Err(x) && x@ == e,
        },
{
    if is_request(bytes.as_slice()) {
        return Err(text("connection transit cannot carry connection requests"));
    }
    if is_response(bytes.as_slice()) {
        return Err(text("connection transit cannot carry connection responses"));
    }
    let scoped = is_connection_scoped_event(bytes.as_slice());
    let mut record = match registry.record_from_bytes(bytes) {
        Ok(record) => record,
        Err(e) => {
            return Err(e);
        },
    };
    if scoped {
        record.scope = EventScope::Connection(
            ConnectionScope::Incoming { connection_id: *connection_id },
        );
        return Ok(ReceivedRecord::new(record));
    }
    if !record.scope.is_shared() {
        return Err(text("connection transit only accepts shared or connection-scoped events"));
    }
    let workspace_id = match record.workspace_id {
        Some(id) => id,
        None => {
            return Err(text("transit shared in requires a workspace"));
        },
    };
    let allowed = mutual_workspace_ids(
        store,
        &provenance.local_endpoint,
        &provenance.sender_endpoint,
    );
    if contains_id(&allowed, &workspace_id) {
        return Ok(ReceivedRecord::new(record));
    }
    match invite_authorizes_shared_event(
        store,
        &workspace_id,
        &provenance.local_endpoint,
        &provenance.sender_endpoint,
        connection_id,
    ) {
        Ok(true) => Ok(ReceivedRecord::new(record)),
        Ok(false) => Err(text("transit shared in rejected event outside sender workspace")),
        Err(e) => Err(e),
    }
}

/// The record that a queued row stands for, or why it is rejected. Bytes with a provenance
/// are classified; other bytes keep the receive metadata that they were queued with.
pub open spec fn queued_record<R: EventRegistry>(s: StoreState, reg: &R, c: CanonicalInView) -> Result<
    ProposalView,
    Seq<char>,
> {
    match c.provenance {
        Some(p) => transit_record(s, reg, c.canonical_bytes, p),
        None => plain_record(reg, c.canonical_bytes, c.receive),
    }
}

/// Decode a queued row.
fn received_record_from_canonical_in<R: EventRegistry>(
    store: &Store,
    registry: &R,
    row: &CanonicalIn,
) -> (r: Result<ReceivedRecord, String>)
    requires
        store.wf(),
    ensures
        match queued_record(store@, registry, row.content()) {
            Ok(v) => r matches Ok(x) && x@ == v,
            Err(e) => r matches Err(x) && x@ == e,
        },
{
    let bytes = copy_bytes(row.canonical_bytes.as_slice());
    match &row.provenance {
        Some(p) => record_from_transit_canonical_in(store, registry, bytes, p),
        None => match registry.record_from_bytes(bytes) {
            Ok(record) => match &row.receive {
                Some(receive) => Ok(ReceivedRecord::with_receive(record, receive.duplicate())),
                None => Ok(ReceivedRecord::new(record)),
            },
            Err(e) => Err(e),
        },
    }
}

// ---------------------------------------------------------------------------
// The drain
// ---------------------------------------------------------------------------

/// The store with a row of the admission queue gone.
pub open spec fn without_row(s: StoreState, key: Seq<u8>) -> StoreState {
    StoreState { rows: s.rows.remove((CANONICAL_IN, key)), ..s }
}

/// Two counts together.
pub open spec fn tally_sum(a: AdmitTally, b: AdmitTally) -> AdmitTally {
    AdmitTally {
        event_ids: a.event_ids + b.event_ids,
        inserted: a.inserted + b.inserted,
        ready: a.ready + b.ready,
        blocked: a.blocked + b.blocked,
        edges: a.edges + b.edges,
        applied: a.applied + b.applied,
    }
}

/// The store and the counts after the first `n` of some queued rows are admitted and
/// consumed, each on its own; or the store and the failure at the first row that is rejected,
/// which is consumed too.
pub open spec fn admitted_queued<R: EventRegistry>(
    reg: &R,
    s: StoreState,
    rows: Seq<(Seq<u8>, CanonicalInView)>,
    n: int,
) -> Result<(StoreState, AdmitTally), (StoreState, Seq<char>)>
    decreases n,
{
    if n <= 0 {
        Ok((s, no_admission()))
    } else {
        match admitted_queued(reg, s, rows, n - 1) {
            Err(failure) => Err(failure),
            Ok((before, t)) => {
                let (key, content) = rows[n - 1];
                match queued_record(before, reg, content) {
                    Err(e) => Err((without_row(before, key), e)),
                    Ok(p) => match admitted_batch(reg, before, seq![p]) {
                        Err(e) => Err((without_row(before, key), e)),
                        Ok((after, u)) => Ok((without_row(after, key), tally_sum(t, u))),
                    },
                }
            },
        }
    }
}

/// The first `limit` queued rows are drained.
pub open spec fn admission_drained<R: EventRegistry>(
    reg: &R,
    s: StoreState,
    limit: usize,
) -> Result<(StoreState, AdmitTally), (StoreState, Seq<char>)> {
    match claimed_canonical_in(s.rows, limit) {
        Err(e) => Err((s, e)),
        Ok(rows) => admitted_queued(reg, s, rows, rows.len() as int),
    }
}

proof fn lemma_queued_fails<R: EventRegistry>(
    reg: &R,
    s: StoreState,
    rows: Seq<(Seq<u8>, CanonicalInView)>,
    m: int,
    n: int,
)
    requires
        m <= n,
        admitted_queued(reg, s, rows, m) is Err,
    ensures
        admitted_queued(reg, s, rows, n) == admitted_queued(reg, s, rows, m),
    decreases n - m,
{
    if m < n {
        lemma_queued_fails(reg, s, rows, m, n - 1);
    }
}

fn merge(total: &mut AdmitReport, next: AdmitReport, Ghost(t): Ghost<AdmitTally>, Ghost(u): Ghost<
    AdmitTally,
>)
    requires
        old(total).holds(t),
        next.holds(u),
        t.inserted + u.inserted <= usize::MAX,
        t.ready + u.ready <= usize::MAX,
        t.blocked + u.blocked <= usize::MAX,
        t.applied + u.applied <= usize::MAX,
        0 <= t.edges,
        0 <= u.edges,
    ensures
        final(total).holds(tally_sum(t, u)),
{
    let mut i: usize = 0;
    assert(next.event_ids@.take(0) =~= Seq::empty());
    assert(total.event_ids@ =~= t.event_ids + next.event_ids@.take(0));
    while i < next.event_ids.len()
        invariant
            i <= next.event_ids@.len(),
            total.event_ids@ == t.event_ids + next.event_ids@.take(i as int),
            total.inserted_events == old(total).inserted_events,
            total.ready_events == old(total).ready_events,
            total.blocked_events == old(total).blocked_events,
            total.blocked_edges == old(total).blocked_edges,
            total.applied_events == old(total).applied_events,
        decreases next.event_ids.len() - i,
    {
        let ghost before = total.event_ids@;
        total.event_ids.push(next.event_ids[i]);
        proof {
            assert(next.event_ids@.take(i + 1) =~= next.event_ids@.take(i as int).push(
                next.event_ids@[i as int],
            ));
            assert(total.event_ids@ =~= t.event_ids + next.event_ids@.take(i + 1));
        }
        i = i + 1;
    }
    assert(next.event_ids@.take(i as int) =~= next.event_ids@);
    total.inserted_events = total.inserted_events + next.inserted_events;
    total.ready_events = total.ready_events + next.ready_events;
    total.blocked_events = total.blocked_events + next.blocked_events;
    total.blocked_edges = total.blocked_edges.saturating_add(next.blocked_edges);
    total.applied_events = total.applied_events + next.applied_events;
}

/// Admit the first `limit` queued rows, one after the other. A rejected row ends the drain;
/// it is consumed, and the rows behind it stay queued.
fn drain_canonical_in<R: EventRegistry>(store: &mut Store, registry: &R, limit: usize) -> (r:
    Result<AdmitReport, String>)
    requires
        old(store).wf(),
    ensures
        final(store).wf(),
        match admission_drained(registry, old(store)@, limit) {
            Ok((after, t)) => r matches Ok(report) && report.holds(t) && final(store)@ == after,
            Err((after, e)) => r matches Err(x) && x@ == e && final(store)@ == after,
        },
{
    let rows = match claim_canonical_in(store, limit) {
        Ok(rows) => rows,
        Err(e) => {
            return Err(e);
        },
    };
    let ghost all = canonical_in_views(rows@);
    let ghost start = store@;
    let ghost mut t = no_admission();
    let mut report = AdmitReport::default();
    let mut i: usize = 0;
    while i < rows.len()
        invariant
            store.wf(),
            i <= rows@.len(),
            all == canonical_in_views(rows@),
            all.len() == rows@.len(),
            start == old(store)@,
            admission_drained(registry, start, limit) == admitted_queued(
                registry,
                start,
                all,
                all.len() as int,
            ),
            admitted_queued(registry, start, all, i as int) == Ok::<
                (StoreState, AdmitTally),
                (StoreState, Seq<char>),
            >((store@, t)),
            report.holds(t),
            0 <= t.inserted <= i,
            0 <= t.ready <= i,
            0 <= t.blocked <= i,
            0 <= t.applied <= i,
            0 <= t.edges,
        decreases rows.len() - i,
    {
        let ghost before = store@;
        assert(all[i as int] == (rows@[i as int].key@, rows@[i as int].content()));
        let received = match received_record_from_canonical_in(store, registry, &rows[i]) {
            Ok(received) => received,
            Err(e) => {
                let _ = store.tables.delete_row(CANONICAL_IN, rows[i].key.as_slice());
                proof {
                    lemma_queued_fails(registry, start, all, i + 1, all.len() as int);
                }
                return Err(e);
            },
        };
        let ghost p = received@;
        let mut records: Vec<ReceivedRecord> = Vec::new();
        records.push(received);
        assert(received_views(records@) =~= seq![p]);
        let admitted = events::run(store, registry, AdmitReceivedRecords { records });
        let _ = store.tables.delete_row(CANONICAL_IN, rows[i].key.as_slice());
        match admitted {
            Ok(next) => {
                let ghost u = admitted_batch(registry, before, seq![p])->Ok_0.1;
                proof {
                    lemma_tally_bounded(registry, before, seq![p], 1);
                }
                merge(&mut report, next, Ghost(t), Ghost(u));
                proof {
                    t = tally_sum(t, u);
                }
            },
            Err(e) => {
                proof {
                    lemma_queued_fails(registry, start, all, i + 1, all.len() as int);
                }
                return Err(e);
            },
        }
        i = i + 1;
    }
    Ok(report)
}

/// Work of the admission worker.
#[derive(Debug, Clone, Copy, PartialEq, Eq)]
pub enum Work {
    /// Admit at most `limit` queued rows.
    Drain { limit: usize },
}

/// Run one unit of work.
pub fn run<R: EventRegistry>(store: &mut Store, registry: &R, work: Work) -> (r: Result<
    AdmitReport,
    String,
>)
    requires
        old(store).wf(),
    ensures
        final(store).wf(),
        work matches Work::Drain { limit } && match admission_drained(
            registry,
            old(store)@,
            limit,
        ) {
            Ok((after, t)) => r matches Ok(report) && report.holds(t) && final(store)@ == after,
            Err((after, e)) => r matches Err(x) && x@ == e && final(store)@ == after,
        },
{
    match work {
        Work::Drain { limit } => drain_canonical_in(store, registry, limit),
    }
}

// ---------------------------------------------------------------------------
// Laws
// ---------------------------------------------------------------------------

/// An established connection brings in, besides its own sync events, only shared events of a
/// workspace that both endpoints belong to or that the invite behind the connection is for.
pub proof fn law_connection_transit_stays_in_its_workspaces<R: EventRegistry>(
    s: StoreState,
    reg: &R,
    bytes: Seq<u8>,
    p: ProvenanceView,
    connection_id: EventId,
)
    requires
        p.unwrapped_with == (TransitUnwrap::Connection { connection_id }),
    ensures
        transit_record(s, reg, bytes, p) matches Ok(v) ==> {
            ||| v.record.scope == EventScope::Connection(
                ConnectionScope::Incoming { connection_id },
            )
            ||| {
                &&& v.record.scope is Shared
                &&& v.record.workspace_id matches Some(w) && (is_mutual(
                    s.rows,
                    p.local_endpoint,
                    p.sender_endpoint,
                    w,
                ) || invite_authorizes(
                    s,
                    w,
                    p.local_endpoint,
                    p.sender_endpoint,
                    connection_id,
                ) == Ok::<bool, Seq<char>>(true))
            }
        },
{
}

/// A local event never comes in through a connection or under an invite key.
pub proof fn law_local_events_stay_local<R: EventRegistry>(
    s: StoreState,
    reg: &R,
    bytes: Seq<u8>,
    p: ProvenanceView,
)
    requires
        !(p.unwrapped_with is Bootstrap),
    ensures
        transit_record(s, reg, bytes, p) matches Ok(v) ==> !(v.record.scope is Local),
{
}

/// An endpoint bootstrap envelope brings in connection requests and responses only.
pub proof fn law_bootstrap_transit_carries_the_handshake_only<R: EventRegistry>(
    s: StoreState,
    reg: &R,
    bytes: Seq<u8>,
    p: ProvenanceView,
)
    requires
        p.unwrapped_with is Bootstrap,
        transit_record(s, reg, bytes, p) is Ok,
    ensures
        is_type(bytes, TYPE_CONNECTION_REQUEST) || is_type(bytes, TYPE_CONNECTION_RESPONSE),
{
}

/// A queued row that is rejected is gone and leaves the stored events as they were.
pub proof fn law_rejected_row_is_consumed<R: EventRegistry>(
    reg: &R,
    s: StoreState,
    key: Seq<u8>,
    content: CanonicalInView,
)
    requires
        queued_record(s, reg, content) is Err,
    ensures
        ({
            let e = queued_record(s, reg, content)->Err_0;
            admitted_queued(reg, s, seq![(key, content)], 1) == Err::<
                (StoreState, AdmitTally),
                (StoreState, Seq<char>),
            >((without_row(s, key), e))
        }),
        !without_row(s, key).rows.contains_key((CANONICAL_IN, key)),
        without_row(s, key).events == s.events,
{
    assert(admitted_queued(reg, s, seq![(key, content)], 0) == Ok::<
        (StoreState, AdmitTally),
        (StoreState, Seq<char>),
    >((s, no_admission())));
}

/// A row is gone from the queue as soon as it is admitted.
pub proof fn law_admitted_row_is_consumed<R: EventRegistry>(
    reg: &R,
    s: StoreState,
    rows: Seq<(Seq<u8>, CanonicalInView)>,
    n: int,
)
    requires
        0 < n <= rows.len(),
    ensures
        admitted_queued(reg, s, rows, n) matches Ok((after, _)) ==> !after.rows.contains_key(
            (CANONICAL_IN, rows[n - 1].0),
        ),
{
}

/// An envelope under an invite key brings in identity events of the workspace that the key is
/// for, and nothing else.
pub proof fn law_invite_transit_stays_in_its_workspace<R: EventRegistry>(
    s: StoreState,
    reg: &R,
    bytes: Seq<u8>,
    p: ProvenanceView,
    bootstrap_hash: EventId,
    workspace_id: EventId,
    invite_event_id: EventId,
)
    requires
        p.unwrapped_with == (TransitUnwrap::InviteBootstrap {
            bootstrap_hash,
            workspace_id,
            invite_event_id,
        }),
    ensures
        transit_record(s, reg, bytes, p) matches Ok(v) ==> {
            &&& v.record.scope is Shared
            &&& v.record.workspace_id == Some(workspace_id)
            &&& identity_bootstrap(v.record.canonical_bytes) == Ok::<bool, Seq<char>>(true)
        },
{
}

/// Invite authority does not depend on who dialled: it is the same for either end of the
/// connection.
pub proof fn law_invite_authority_is_symmetric(
    s: StoreState,
    workspace_id: EventId,
    a: EventId,
    b: EventId,
    connection_id: EventId,
)
    ensures
        invite_authorizes(s, workspace_id, a, b, connection_id) == invite_authorizes(
            s,
            workspace_id,
            b,
            a,
            connection_id,
        ),
{
}

/// What invite authority rests on, all of it stored: the response that is the connection, the
/// request that it answers, and the invite secret of the request. The request names the two
/// endpoints, in either order, and carries the bootstrap hash of the secret; the secret belongs
/// to an invite event of the workspace.
pub open spec fn invited(
    s: StoreState,
    workspace_id: EventId,
    a: EventId,
    b: EventId,
    connection_id: EventId,
) -> bool {
    let events = s.events.events;
    &&& events.contains_key(connection_id@)
    &&& decoded_response(events[connection_id@].canonical_bytes) matches Ok(response) && {
        &&& events.contains_key(response.request_id@)
        &&& decoded_request(events[response.request_id@].canonical_bytes) matches Ok(request) && {
            &&& request.from_endpoint == a && request.to_endpoint == b || request.from_endpoint == b
                && request.to_endpoint == a
            &&& events.contains_key(request.invite_secret_event_id@)
            &&& decoded_invite_secret(
                events[request.invite_secret_event_id@].canonical_bytes,
            ) matches Ok(secret) && {
                &&& secret.workspace_id == Some(workspace_id)
                &&& secret.invite_event_id is Some
                &&& secret.bootstrap_hash == request.bootstrap_hash
            }
        }
    }
}

/// An invite authorizes exactly what it was made for: the events of its workspace, between the
/// two endpoints of the request that used it.
pub proof fn law_invite_authorizes_what_it_is_for(
    s: StoreState,
    workspace_id: EventId,
    a: EventId,
    b: EventId,
    connection_id: EventId,
)
    ensures
        invite_authorizes(s, workspace_id, a, b, connection_id) == Ok::<bool, Seq<char>>(true)
            <==> invited(s, workspace_id, a, b, connection_id),
{
}

/// A shared event of a workspace is taken in over a connection exactly where both endpoints are
/// members of the workspace, or the invite behind the connection is for it. It is taken in as it
/// was decoded.
pub proof fn law_shared_event_is_taken_in_where_it_is_due<R: EventRegistry>(
    s: StoreState,
    reg: &R,
    bytes: Seq<u8>,
    p: ProvenanceView,
    connection_id: EventId,
    record: RecordView,
    workspace_id: EventId,
)
    requires
        p.unwrapped_with == (TransitUnwrap::Connection { connection_id }),
        reg.decoded(bytes) == Ok::<RecordView, Seq<char>>(record),
        record.scope is Shared,
        record.workspace_id == Some(workspace_id),
        bytes.len() > 0,
        bytes[0] != TYPE_CONNECTION_REQUEST,
        bytes[0] != TYPE_CONNECTION_RESPONSE,
        !connection_scoped(bytes),
    ensures
        ({
            let due = {
                ||| s.rows.contains_key(
                    (TableName::EndpointMemberships, p.local_endpoint@ + workspace_id@),
                ) && s.rows.contains_key(
                    (TableName::EndpointMemberships, p.sender_endpoint@ + workspace_id@),
                )
                ||| invited(s, workspace_id, p.local_endpoint, p.sender_endpoint, connection_id)
            };
            &&& transit_record(s, reg, bytes, p) is Ok <==> due
            &&& due ==> transit_record(s, reg, bytes, p) == Ok::<ProposalView, Seq<char>>(
                ProposalView { record, receive: None },
            )
        }),
{
    law_invite_authorizes_what_it_is_for(
        s,
        workspace_id,
        p.local_endpoint,
        p.sender_endpoint,
        connection_id,
    );
}

/// A sync event of a connection is taken in whoever the endpoints are, as an event that came in
/// over this connection.
pub proof fn law_connection_event_is_taken_in<R: EventRegistry>(
    s: StoreState,
    reg: &R,
    bytes: Seq<u8>,
    p: ProvenanceView,
    connection_id: EventId,
    record: RecordView,
)
    requires
        p.unwrapped_with == (TransitUnwrap::Connection { connection_id }),
        reg.decoded(bytes) == Ok::<RecordView, Seq<char>>(record),
        bytes.len() > 0,
        bytes[0] != TYPE_CONNECTION_REQUEST,
        bytes[0] != TYPE_CONNECTION_RESPONSE,
        connection_scoped(bytes),
    ensures
        transit_record(s, reg, bytes, p) matches Ok(v) && v.receive is None && v.record == (
        RecordView {
            scope: EventScope::Connection(ConnectionScope::Incoming { connection_id }),
            ..record
        }),
{
}

/// A request or a response that came under the endpoint key is taken in, with where it came
/// from; a request by the authority of its invite, a response by that of the endpoint.
pub proof fn law_handshake_is_taken_in<R: EventRegistry>(
    s: StoreState,
    reg: &R,
    bytes: Seq<u8>,
    p: ProvenanceView,
    record: RecordView,
)
    requires
        p.unwrapped_with is Bootstrap,
        reg.decoded(bytes) == Ok::<RecordView, Seq<char>>(record),
        bytes.len() > 0,
        bytes[0] == TYPE_CONNECTION_REQUEST || bytes[0] == TYPE_CONNECTION_RESPONSE,
    ensures
        transit_record(s, reg, bytes, p) matches Ok(v) && v.record == record && (
        v.receive matches Some(m) && {
            &&& m.origin == p.origin
            &&& m.local_endpoint == p.local_endpoint
            &&& m.remote_endpoint == p.sender_endpoint
            &&& m.remember_route == p.remember_route
            &&& m.authorization is BootstrapInvite <==> bytes[0] == TYPE_CONNECTION_REQUEST
            &&& m.authorization is EndpointReceive <==> bytes[0] == TYPE_CONNECTION_RESPONSE
        }),
{
}

/// An identity event of the workspace of an invite is taken in under the key of the invite.
pub proof fn law_identity_event_is_taken_in<R: EventRegistry>(
    s: StoreState,
    reg: &R,
    bytes: Seq<u8>,
    p: ProvenanceView,
    bootstrap_hash: EventId,
    workspace_id: EventId,
    invite_event_id: EventId,
    record: RecordView,
)
    requires
        p.unwrapped_with == (TransitUnwrap::InviteBootstrap {
            bootstrap_hash,
            workspace_id,
            invite_event_id,
        }),
        reg.decoded(bytes) == Ok::<RecordView, Seq<char>>(record),
        record.scope is Shared,
        record.workspace_id == Some(workspace_id),
        identity_bootstrap(record.canonical_bytes) == Ok::<bool, Seq<char>>(true),
    ensures
        transit_record(s, reg, bytes, p) == Ok::<ProposalView, Seq<char>>(
            ProposalView { record, receive: None },
        ),
{
}

proof fn lemma_queue_order<R: EventRegistry>(
    reg: &R,
    s: StoreState,
    rows: Seq<(Seq<u8>, CanonicalInView)>,
    n: int,
)
    requires
        0 <= n <= rows.len(),
        admitted_queued(reg, s, rows, n) is Ok,
    ensures
        forall|i: int|
            0 <= i < n ==> {
                &&& #[trigger] admitted_queued(reg, s, rows, i) is Ok
                &&& queued_record(
                    (admitted_queued(reg, s, rows, i)->Ok_0).0,
                    reg,
                    rows[i].1,
                ) is Ok
            },
    decreases n,
{
    if n > 0 {
        lemma_queue_order(reg, s, rows, n - 1);
    }
}

/// A drain that succeeds took in every row that it claimed, one after the other and none left
/// out: each was entitled to admission at its turn, and its event was admitted.
pub proof fn law_drain_admits_every_claimed_row<R: EventRegistry>(
    reg: &R,
    s: StoreState,
    rows: Seq<(Seq<u8>, CanonicalInView)>,
    i: int,
)
    requires
        0 <= i < rows.len(),
        admitted_queued(reg, s, rows, rows.len() as int) is Ok,
    ensures
        admitted_queued(reg, s, rows, i) matches Ok((before, t)) && (queued_record(
            before,
            reg,
            rows[i].1,
        ) matches Ok(p) && (admitted_batch(reg, before, seq![p]) matches Ok((after, u)) && (
        admitted_queued(reg, s, rows, i + 1) matches Ok((next, w)) && {
            &&& next.events == after.events
            &&& next.rows == after.rows.remove((CANONICAL_IN, rows[i].0))
            &&& w.event_ids == t.event_ids + u.event_ids
            &&& w.inserted == t.inserted + u.inserted
            &&& w.blocked == t.blocked + u.blocked
            &&& w.applied == t.applied + u.applied
        }))),
{
    lemma_queue_order(reg, s, rows, rows.len() as int);
    let n = rows.len() as int;
    assert(admitted_queued(reg, s, rows, i) is Ok);
    if i + 1 < n {
        assert(admitted_queued(reg, s, rows, i + 1) is Ok);
    }
}

/// Bytes that were queued without a provenance are taken as they were queued: what they say, with
/// the receive metadata that came with them. They are refused only where they cannot be read.
pub proof fn law_queued_bytes_keep_their_metadata<R: EventRegistry>(
    s: StoreState,
    reg: &R,
    c: CanonicalInView,
)
    requires
        c.provenance is None,
    ensures
        queued_record(s, reg, c) is Ok <==> reg.decoded(c.canonical_bytes) is Ok,
        queued_record(s, reg, c) matches Ok(p) ==> p.receive == c.receive && reg.decoded(
            c.canonical_bytes,
        ) == Ok::<RecordView, Seq<char>>(p.record),
{
}

} // verus!
