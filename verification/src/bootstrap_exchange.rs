//! Serving invites: admitting what an acceptor sends, and answering it on the same stream.
//!
//! A frame that was opened with the key of an invite is answered only where this device holds
//! the invite event that the frame names, and then with the identity events of the workspace of
//! the invite, without those that just came in. A requester that says where it listens gets a
//! route there, unless its endpoint has one already.
use vstd::prelude::*;
use crate::bytes::{
    contains_id, has_prefix, id_at, id_bytes, id_eq, id_with, is_id, lemma_id_of, lemma_id_with,
    EventId,
};
use crate::connection_facts::{
    decode_invite_secret, decode_request, decoded_invite_secret, decoded_request,
    encode_invite_secret, encoded_invite_secret, identity_bootstrap, is_identity_bootstrap_event,
    is_request, is_type, InviteSecretEvent, TYPE_CONNECTION_REQUEST,
};
use crate::connections::{remote_endpoint, remote_endpoint_of, ConnectionId};
use crate::content_purge::{first_shared, list_first_shared};
use crate::endpoints::{local_endpoint, local_endpoint_of, EndpointKeypair};
use crate::event_admission::admission_drained;
use crate::events::EventRegistry;
use crate::hash::{blake3_digest, domain_hash, event_id, event_id_of};
use crate::recording::{settle, settled};
use crate::schema::TransitUnwrap;
use crate::store::{Store, StoreState};
use crate::table::{countable, key_views};
use crate::tables::{
    keys_of, law_first_rows_come_first, pair_views, rows_listed, RowView, Rows, TableName, TableRow,
};
use crate::text::text;
use crate::transit_in::{
    queue_recovered, recovered_queued, recovered_views, Recovered, RecoveredView,
};
use crate::transit_out::{remember_connection_route, route_remembered};

verus! {

// ---------------------------------------------------------------------------
// Invite secrets
// ---------------------------------------------------------------------------

/// The row of an invite secret.
pub fn invite_secret_row(secret: &InviteSecretEvent) -> (r: TableRow)
    ensures
        r@ == (RowView {
            table: TableName::InviteSecrets,
            key: secret.bootstrap_hash@,
            value: encoded_invite_secret(*secret),
        }),
{
    TableRow {
        table: TableName::InviteSecrets,
        key: id_bytes(&secret.bootstrap_hash),
        value: encode_invite_secret(secret),
    }
}

/// The invite secret with a hash.
pub open spec fn secret_by_hash(m: Rows, hash: EventId) -> Result<InviteSecretEvent, Seq<char>> {
    let key = (TableName::InviteSecrets, hash@);
    if !m.contains_key(key) {
        Err("unknown invite secret"@)
    } else {
        decoded_invite_secret(m[key])
    }
}

/// Find the invite secret with a hash.
pub fn invite_secret_by_hash(store: &Store, hash: &EventId) -> (r: Result<InviteSecretEvent, String>)
    requires
        store.wf(),
    ensures
        match secret_by_hash(store@.rows, *hash) {
            Ok(v) => r == Ok::<InviteSecretEvent, String>(v),
            Err(e) => r matches Err(x) && x@ == e,
        },
{
    match store.tables.table_row(TableName::InviteSecrets, hash.as_slice()) {
        Some(bytes) => decode_invite_secret(bytes.as_slice()),
        None => Err(text("unknown invite secret")),
    }
}

// ---------------------------------------------------------------------------
// Whether there is an answer
// ---------------------------------------------------------------------------

/// An answer that is owed to an acceptor.
#[derive(Debug, Clone, Copy, PartialEq, Eq)]
pub struct InviteBootstrapReply {
    pub sender_endpoint: EventId,
    pub bootstrap_hash: EventId,
    pub workspace_id: EventId,
    pub invite_event_id: EventId,
}

/// The answer that is owed for one event, if any: it came under the key of an invite that this
/// device holds.
pub open spec fn reply_for(s: StoreState, r: RecoveredView) -> Option<InviteBootstrapReply> {
    match r.provenance.unwrapped_with {
        TransitUnwrap::InviteBootstrap { bootstrap_hash, workspace_id, invite_event_id } => {
            if s.events.events.contains_key(invite_event_id@) {
                Some(
                    InviteBootstrapReply {
                        sender_endpoint: r.provenance.sender_endpoint,
                        bootstrap_hash,
                        workspace_id,
                        invite_event_id,
                    },
                )
            } else {
                None
            }
        },
        _ => None,
    }
}

/// The first answer that is owed from the `i`-th event on.
pub open spec fn reply_from(s: StoreState, recovered: Seq<RecoveredView>, i: int) -> Option<
    InviteBootstrapReply,
>
    decreases recovered.len() - i,
{
    if i < 0 || i >= recovered.len() {
        None
    } else {
        match reply_for(s, recovered[i]) {
            Some(reply) => Some(reply),
            None => reply_from(s, recovered, i + 1),
        }
    }
}

/// Find the answer that is owed for some events.
pub fn invite_bootstrap_reply(store: &Store, recovered: &Vec<Recovered>) -> (r: Option<
    InviteBootstrapReply,
>)
    requires
        store.wf(),
    ensures
        r == reply_from(store@, recovered_views(recovered@), 0),
{
    let ghost views = recovered_views(recovered@);
    let mut i: usize = 0;
    while i < recovered.len()
        invariant
            store.wf(),
            i <= recovered@.len(),
            views == recovered_views(recovered@),
            reply_from(store@, views, 0) == reply_from(store@, views, i as int),
        decreases recovered.len() - i,
    {
        let p = &recovered[i].provenance;
        assert(views[i as int] == recovered@[i as int]@);
        match p.unwrapped_with {
            TransitUnwrap::InviteBootstrap { bootstrap_hash, workspace_id, invite_event_id } => {
                if store.events.has_event(&invite_event_id) {
                    return Some(
                        InviteBootstrapReply {
                            sender_endpoint: p.sender_endpoint,
                            bootstrap_hash,
                            workspace_id,
                            invite_event_id,
                        },
                    );
                }
            },
            _ => {},
        }
        i = i + 1;
    }
    None
}

// ---------------------------------------------------------------------------
// What the answer holds
// ---------------------------------------------------------------------------

/// The identity events of a workspace among the first `n` of some events, without some.
pub open spec fn identity_bytes_upto(
    s: StoreState,
    ids: Seq<EventId>,
    workspace_id: EventId,
    exclude: Seq<EventId>,
    n: int,
) -> Result<Seq<Seq<u8>>, Seq<char>>
    decreases n,
{
    if n <= 0 {
        Ok(Seq::empty())
    } else {
        match identity_bytes_upto(s, ids, workspace_id, exclude, n - 1) {
            Err(e) => Err(e),
            Ok(out) => {
                let id = ids[n - 1];
                let row = s.events.events[id@];
                if exclude.contains(id) || !s.events.events.contains_key(id@) || row.workspace_id
                    != Some(workspace_id) {
                    Ok(out)
                } else {
                    match identity_bootstrap(row.canonical_bytes) {
                        Err(e) => Err(e),
                        Ok(false) => Ok(out),
                        Ok(true) => Ok(out.push(row.canonical_bytes)),
                    }
                }
            },
        }
    }
}

proof fn lemma_identity_bytes_fail(
    s: StoreState,
    ids: Seq<EventId>,
    workspace_id: EventId,
    exclude: Seq<EventId>,
    m: int,
    n: int,
)
    requires
        m <= n,
        identity_bytes_upto(s, ids, workspace_id, exclude, m) is Err,
    ensures
        identity_bytes_upto(s, ids, workspace_id, exclude, n) == identity_bytes_upto(
            s,
            ids,
            workspace_id,
            exclude,
            m,
        ),
    decreases n - m,
{
    if m < n {
        lemma_identity_bytes_fail(s, ids, workspace_id, exclude, m, n - 1);
    }
}

/// The identity events of a workspace, in the order of timestamps and then ids, without some.
pub open spec fn identity_bytes(
    s: StoreState,
    workspace_id: EventId,
    exclude: Seq<EventId>,
) -> Result<Seq<Seq<u8>>, Seq<char>> {
    let ids = first_shared(s, usize::MAX);
    identity_bytes_upto(s, ids, workspace_id, exclude, ids.len() as int)
}

/// Gather the identity events of a workspace, without some.
pub fn workspace_identity_bootstrap_event_bytes(
    store: &Store,
    workspace_id: &EventId,
    exclude: &Vec<EventId>,
) -> (r: Result<Vec<Vec<u8>>, String>)
    requires
        store.wf(),
    ensures
        match identity_bytes(store@, *workspace_id, exclude@) {
            Ok(v) => r matches Ok(x) && key_views(x@) == v,
            Err(e) => r matches Err(x) && x@ == e,
        },
{
    let ids = list_first_shared(store, usize::MAX);
    let ghost s = store@;
    let mut out: Vec<Vec<u8>> = Vec::new();
    let mut i: usize = 0;
    assert(key_views(out@) =~= Seq::empty());
    while i < ids.len()
        invariant
            store.wf(),
            s == store@,
            i <= ids@.len(),
            ids@ == first_shared(s, usize::MAX),
            identity_bytes_upto(s, ids@, *workspace_id, exclude@, i as int) == Ok::<
                Seq<Seq<u8>>,
                Seq<char>,
            >(key_views(out@)),
        decreases ids.len() - i,
    {
        let id = ids[i];
        proof {
            if identity_bytes_upto(s, ids@, *workspace_id, exclude@, i + 1) is Err {
                lemma_identity_bytes_fail(
                    s,
                    ids@,
                    *workspace_id,
                    exclude@,
                    i + 1,
                    ids@.len() as int,
                );
            }
        }
        if !contains_id(exclude, &id) {
            match store.events.event_facts(&id) {
                Some((_, Some(w))) => {
                    if id_eq(&w, workspace_id) {
                        let bytes = store.events.event_bytes(&id).unwrap();
                        match is_identity_bootstrap_event(bytes.as_slice()) {
                            Ok(true) => {
                                let ghost before = out@;
                                let ghost view = bytes@;
                                out.push(bytes);
                                assert(key_views(out@) =~= key_views(before).push(view));
                            },
                            Ok(false) => {},
                            Err(e) => {
                                return Err(e);
                            },
                        }
                    }
                },
                _ => {},
            }
        }
        i = i + 1;
    }
    Ok(out)
}

/// What an answer is made of: the caller wraps it under the key of the invite.
#[derive(Debug, Clone, PartialEq, Eq)]
pub struct BootstrapBatch {
    pub local: EndpointKeypair,
    pub to_endpoint: EventId,
    pub bootstrap_secret: EventId,
    pub workspace_id: EventId,
    pub invite_event_id: EventId,
    pub inners: Vec<Vec<u8>>,
}

/// What an answer is made of.
pub struct BatchView {
    pub local: EndpointKeypair,
    pub to_endpoint: EventId,
    pub bootstrap_secret: EventId,
    pub workspace_id: EventId,
    pub invite_event_id: EventId,
    pub inners: Seq<Seq<u8>>,
}

impl View for BootstrapBatch {
    type V = BatchView;

    open spec fn view(&self) -> BatchView {
        BatchView {
            local: self.local,
            to_endpoint: self.to_endpoint,
            bootstrap_secret: self.bootstrap_secret,
            workspace_id: self.workspace_id,
            invite_event_id: self.invite_event_id,
            inners: key_views(self.inners@),
        }
    }
}

/// What an answer is made of, or why it cannot be given: the secret has to be scoped to the
/// invite that the frame named. Without an event to send there is no answer.
pub open spec fn response_batch(
    s: StoreState,
    reply: InviteBootstrapReply,
    exclude: Seq<EventId>,
) -> Result<Option<BatchView>, Seq<char>> {
    match local_endpoint_of(s.rows) {
        Err(e) => Err(e),
        Ok(local) => match secret_by_hash(s.rows, reply.bootstrap_hash) {
            Err(e) => Err(e),
            Ok(secret) => if secret.workspace_id != Some(reply.workspace_id)
                || secret.invite_event_id != Some(reply.invite_event_id) {
                Err("invite bootstrap reply key is not scoped to envelope invite"@)
            } else {
                match identity_bytes(s, reply.workspace_id, exclude) {
                    Err(e) => Err(e),
                    Ok(inners) => if inners.len() == 0 {
                        Ok(None)
                    } else {
                        Ok(
                            Some(
                                BatchView {
                                    local,
                                    to_endpoint: reply.sender_endpoint,
                                    bootstrap_secret: secret.bootstrap_secret,
                                    workspace_id: reply.workspace_id,
                                    invite_event_id: reply.invite_event_id,
                                    inners,
                                },
                            ),
                        )
                    },
                }
            },
        },
    }
}

/// Find what an answer is made of.
pub fn invite_bootstrap_response(
    store: &Store,
    reply: &InviteBootstrapReply,
    exclude: &Vec<EventId>,
) -> (r: Result<Option<BootstrapBatch>, String>)
    requires
        store.wf(),
    ensures
        match response_batch(store@, *reply, exclude@) {
            Ok(Some(v)) => r matches Ok(Some(x)) && x@ == v,
            Ok(None) => r matches Ok(None),
            Err(e) => r matches Err(x) && x@ == e,
        },
{
    let local = match local_endpoint(store) {
        Ok(local) => local,
        Err(e) => {
            return Err(e);
        },
    };
    let secret = match invite_secret_by_hash(store, &reply.bootstrap_hash) {
        Ok(secret) => secret,
        Err(e) => {
            return Err(e);
        },
    };
    if !is_id(&secret.workspace_id, &reply.workspace_id) || !is_id(
        &secret.invite_event_id,
        &reply.invite_event_id,
    ) {
        return Err(text("invite bootstrap reply key is not scoped to envelope invite"));
    }
    let inners = match workspace_identity_bootstrap_event_bytes(
        store,
        &reply.workspace_id,
        exclude,
    ) {
        Ok(inners) => inners,
        Err(e) => {
            return Err(e);
        },
    };
    assert(key_views(inners@).len() == inners@.len());
    if inners.len() == 0 {
        return Ok(None);
    }
    Ok(
        Some(
            BootstrapBatch {
                local,
                to_endpoint: reply.sender_endpoint,
                bootstrap_secret: secret.bootstrap_secret,
                workspace_id: reply.workspace_id,
                invite_event_id: reply.invite_event_id,
                inners,
            },
        ),
    )
}

// ---------------------------------------------------------------------------
// Where a requester listens
// ---------------------------------------------------------------------------

/// The text that the digest of a connection id starts with: `connection-id:`.
pub open spec fn connection_id_domain() -> Seq<u8> {
    seq![99u8, 111, 110, 110, 101, 99, 116, 105, 111, 110, 45, 105, 100, 58]
}

/// The connection that a request makes with an endpoint.
pub open spec fn connection_id_of(request_id: EventId, endpoint: EventId) -> EventId {
    blake3_digest(connection_id_domain() + (request_id@ + endpoint@))
}

/// The connection that a request makes with an endpoint.
pub fn connection_id(request_id: &EventId, endpoint: &EventId) -> (r: ConnectionId)
    ensures
        r == connection_id_of(*request_id, *endpoint),
{
    let domain: Vec<u8> = vec![99, 111, 110, 110, 101, 99, 116, 105, 111, 110, 45, 105, 100, 58];
    assert(domain@ =~= connection_id_domain());
    let pair = crate::bytes::id_pair(request_id, endpoint);
    domain_hash(domain.as_slice(), pair.as_slice())
}

/// Whether some routed connection, from the `i`-th on, has an endpoint at its other end. One
/// that is not known any more is passed over.
pub open spec fn routed_from(m: Rows, rows: Seq<(Seq<u8>, Seq<u8>)>, endpoint: EventId, i: int) -> Result<
    bool,
    Seq<char>,
>
    decreases rows.len() - i,
{
    if i < 0 || i >= rows.len() {
        Ok(false)
    } else if rows[i].0.len() != 32 {
        Err("connection id must be 32 bytes"@)
    } else if remote_endpoint_of(m, id_with(rows[i].0)) == Ok::<EventId, Seq<char>>(endpoint) {
        Ok(true)
    } else {
        routed_from(m, rows, endpoint, i + 1)
    }
}

/// Whether some routed connection has an endpoint at its other end.
pub open spec fn has_route_to(m: Rows, endpoint: EventId) -> Result<bool, Seq<char>> {
    routed_from(
        m,
        rows_listed(m, TableName::TransportTargets, Seq::empty(), usize::MAX),
        endpoint,
        0,
    )
}

/// Find out whether some routed connection has an endpoint at its other end.
pub fn endpoint_has_routed_connection(store: &Store, endpoint: &EventId) -> (r: Result<bool, String>)
    requires
        store.wf(),
    ensures
        match has_route_to(store@.rows, *endpoint) {
            Ok(b) => r == Ok::<bool, String>(b),
            Err(e) => r matches Err(x) && x@ == e,
        },
{
    let rows = store.tables.table_rows(TableName::TransportTargets);
    let ghost m = store@.rows;
    let ghost listed = rows_listed(m, TableName::TransportTargets, Seq::empty(), usize::MAX);
    let mut i: usize = 0;
    assert(listed.len() == rows@.len());
    while i < rows.len()
        invariant
            store.wf(),
            m == store@.rows,
            i <= rows@.len(),
            pair_views(rows@) == listed,
            listed == rows_listed(m, TableName::TransportTargets, Seq::empty(), usize::MAX),
            listed.len() == rows@.len(),
            has_route_to(m, *endpoint) == routed_from(m, listed, *endpoint, i as int),
        decreases rows.len() - i,
    {
        assert(pair_views(rows@)[i as int] == (rows@[i as int].0@, rows@[i as int].1@));
        if rows[i].0.len() != 32 {
            return Err(text("connection id must be 32 bytes"));
        }
        let id = id_at(rows[i].0.as_slice(), 0);
        proof {
            assert(rows@[i as int].0@.subrange(0, 32) =~= rows@[i as int].0@);
            lemma_id_with(id);
        }
        match remote_endpoint(store, &id) {
            Ok(remote) => {
                if id_eq(&remote, endpoint) {
                    return Ok(true);
                }
            },
            Err(_) => {},
        }
        i = i + 1;
    }
    Ok(false)
}

/// The rows after a request said where its sender listens. Nothing changes where it does not
/// say, where the request has made no connection yet, and where the sender has a route.
pub open spec fn listener_remembered(m: Rows, request_bytes: Seq<u8>) -> Result<Rows, Seq<char>> {
    match decoded_request(request_bytes) {
        Err(e) => Err(e),
        Ok(request) => match request.from_listen_addr {
            None => Ok(m),
            Some(addr) => match local_endpoint_of(m) {
                Err(e) => Err(e),
                Ok(local) => {
                    let connection_id = connection_id_of(
                        event_id_of(request_bytes),
                        local.endpoint,
                    );
                    if remote_endpoint_of(m, connection_id) is Err {
                        Ok(m)
                    } else {
                        match has_route_to(m, request.from_endpoint) {
                            Err(e) => Err(e),
                            Ok(true) => Ok(m),
                            Ok(false) => Ok(route_remembered(m, connection_id, addr)),
                        }
                    }
                },
            },
        },
    }
}

/// Remember where the sender of a request listens.
pub fn remember_advertised_listener(store: &mut Store, request_bytes: &[u8]) -> (r: Result<
    (),
    String,
>)
    requires
        old(store).wf(),
    ensures
        final(store).wf(),
        match listener_remembered(old(store)@.rows, request_bytes@) {
            Ok(m) => {
                &&& r is Ok
                &&& final(store)@ == (StoreState { rows: m, ..old(store)@ })
            },
            Err(e) => {
                &&& r matches Err(x) && x@ == e
                &&& final(store)@ == old(store)@
            },
        },
{
    let request = match decode_request(request_bytes) {
        Ok(request) => request,
        Err(e) => {
            return Err(e);
        },
    };
    let addr = match &request.from_listen_addr {
        Some(addr) => addr,
        None => {
            return Ok(());
        },
    };
    let local = match local_endpoint(store) {
        Ok(local) => local,
        Err(e) => {
            return Err(e);
        },
    };
    let id = connection_id(&event_id(request_bytes), &local.endpoint);
    match remote_endpoint(store, &id) {
        Ok(_) => {},
        Err(_) => {
            return Ok(());
        },
    }
    match endpoint_has_routed_connection(store, &request.from_endpoint) {
        Err(e) => Err(e),
        Ok(true) => Ok(()),
        Ok(false) => {
            remember_connection_route(store, &id, addr.as_slice());
            Ok(())
        },
    }
}

/// The rows after the requests among the first `n` events said where their senders listen.
pub open spec fn listeners_upto(m: Rows, recovered: Seq<RecoveredView>, n: int) -> Result<
    Rows,
    (Rows, Seq<char>),
>
    decreases n,
{
    if n <= 0 {
        Ok(m)
    } else {
        match listeners_upto(m, recovered, n - 1) {
            Err(e) => Err(e),
            Ok(p) => {
                let bytes = recovered[n - 1].canonical_bytes;
                if !is_type(bytes, TYPE_CONNECTION_REQUEST) {
                    Ok(p)
                } else {
                    match listener_remembered(p, bytes) {
                        Ok(q) => Ok(q),
                        Err(e) => Err((p, e)),
                    }
                }
            },
        }
    }
}

proof fn lemma_listeners_fail(m: Rows, recovered: Seq<RecoveredView>, i: int, n: int)
    requires
        i <= n,
        listeners_upto(m, recovered, i) is Err,
    ensures
        listeners_upto(m, recovered, n) == listeners_upto(m, recovered, i),
    decreases n - i,
{
    if i < n {
        lemma_listeners_fail(m, recovered, i, n - 1);
    }
}

fn remember_listeners(store: &mut Store, recovered: &Vec<Recovered>) -> (r: Result<(), String>)
    requires
        old(store).wf(),
    ensures
        final(store).wf(),
        final(store)@.events == old(store)@.events,
        match listeners_upto(
            old(store)@.rows,
            recovered_views(recovered@),
            recovered@.len() as int,
        ) {
            Ok(m) => r is Ok && final(store)@.rows == m,
            Err((m, e)) => r matches Err(x) && x@ == e && final(store)@.rows == m,
        },
{
    let ghost views = recovered_views(recovered@);
    let ghost m0 = store@.rows;
    let mut i: usize = 0;
    while i < recovered.len()
        invariant
            store.wf(),
            store@.events == old(store)@.events,
            m0 == old(store)@.rows,
            i <= recovered@.len(),
            views == recovered_views(recovered@),
            listeners_upto(m0, views, i as int) == Ok::<Rows, (Rows, Seq<char>)>(store@.rows),
        decreases recovered.len() - i,
    {
        assert(views[i as int] == recovered@[i as int]@);
        proof {
            if listeners_upto(m0, views, i + 1) is Err {
                lemma_listeners_fail(m0, views, i + 1, recovered@.len() as int);
            }
        }
        if is_request(recovered[i].canonical_bytes.as_slice()) {
            match remember_advertised_listener(store, recovered[i].canonical_bytes.as_slice()) {
                Ok(_) => {},
                Err(e) => {
                    return Err(e);
                },
            }
        }
        i = i + 1;
    }
    Ok(())
}

// ---------------------------------------------------------------------------
// An inbound frame
// ---------------------------------------------------------------------------

/// What came of an inbound frame.
#[derive(Debug, Clone, PartialEq, Eq)]
pub struct InboundExchange {
    pub received_events: usize,
    /// The answer to send back on the same stream.
    pub reply: Option<BootstrapBatch>,
}

/// How many queued events are admitted for a frame.
pub open spec fn admission_limit(n: nat) -> usize {
    if n == 0 {
        1
    } else {
        n as usize
    }
}

/// What an answer is made of when one is owed.
pub open spec fn answer_of(
    s: StoreState,
    reply: Option<InviteBootstrapReply>,
    exclude: Seq<EventId>,
) -> Result<Option<BatchView>, Seq<char>> {
    match reply {
        None => Ok(None),
        Some(reply) => response_batch(s, reply, exclude),
    }
}

/// What is left and returned once the store has settled after the admission of a frame.
pub open spec fn exchange_finished(
    settled: StoreState,
    recovered: Seq<RecoveredView>,
    reply: Option<InviteBootstrapReply>,
    admitted: Seq<EventId>,
    after: StoreState,
    r: Result<InboundExchange, String>,
) -> bool {
    &&& after.events == settled.events
    &&& match listeners_upto(settled.rows, recovered, recovered.len() as int) {
        Err((m, e)) => {
            &&& after.rows == m
            &&& r matches Err(x) && x@ == e
        },
        Ok(m) => {
            &&& after.rows == m
            &&& match answer_of(after, reply, admitted) {
                Err(e) => r matches Err(x) && x@ == e,
                Ok(None) => r matches Ok(x) && x.received_events == admitted.len() && x.reply
                    is None,
                Ok(Some(v)) => r matches Ok(x) && x.received_events == admitted.len() && (
                x.reply matches Some(b) && b@ == v),
            }
        },
    }
}

/// What an inbound frame leaves and returns: what it held is queued and admitted, the store
/// settles, requests say where their senders listen, and an owed answer is put together. Whether
/// one is owed is decided before anything is taken in.
pub open spec fn exchange_done<R: EventRegistry>(
    reg: &R,
    before: StoreState,
    recovered: Seq<RecoveredView>,
    after: StoreState,
    r: Result<InboundExchange, String>,
) -> bool {
    let reply = reply_from(before, recovered, 0);
    let queued = StoreState { rows: recovered_queued(before.rows, recovered), ..before };
    match admission_drained(reg, queued, admission_limit(recovered.len())) {
        Err((s, e)) => {
            &&& after == s
            &&& r matches Err(x) && x@ == e
        },
        Ok((s, t)) => {
            ||| exists|calm: StoreState|
                {
                    &&& #[trigger] settled(reg, s, calm, None)
                    &&& exchange_finished(calm, recovered, reply, t.event_ids, after, r)
                }
            ||| r matches Err(x) && settled(reg, s, after, Some(x@))
        },
    }
}

/// Take in what an inbound frame held, and find the answer that is owed.
pub fn process_inbound<R: EventRegistry>(
    store: &mut Store,
    registry: &R,
    recovered: &Vec<Recovered>,
) -> (r: Result<InboundExchange, String>)
    requires
        old(store).wf(),
    ensures
        final(store).wf(),
        exchange_done(
            registry,
            old(store)@,
            recovered_views(recovered@),
            final(store)@,
            r,
        ),
{
    let ghost views = recovered_views(recovered@);
    assert(views.len() == recovered@.len());
    let reply = invite_bootstrap_reply(store, recovered);
    queue_recovered(store, recovered);
    let limit: usize = if recovered.len() == 0 {
        1
    } else {
        recovered.len()
    };
    let admitted = match crate::event_admission::run(
        store,
        registry,
        crate::event_admission::Work::Drain { limit },
    ) {
        Ok(admitted) => admitted,
        Err(e) => {
            return Err(e);
        },
    };
    match settle(store, registry) {
        Ok(_) => {},
        Err(e) => {
            return Err(e);
        },
    }
    let ghost calm = store@;
    match remember_listeners(store, recovered) {
        Ok(_) => {},
        Err(e) => {
            let r = Err(e);
            assert(exchange_finished(calm, views, reply, admitted.event_ids@, store@, r));
            return r;
        },
    }
    let answer = match &reply {
        None => None,
        Some(reply) => match invite_bootstrap_response(store, reply, &admitted.event_ids) {
            Ok(answer) => answer,
            Err(e) => {
                let r = Err(e);
                assert(exchange_finished(
                    calm,
                    views,
                    Some(*reply),
                    admitted.event_ids@,
                    store@,
                    r,
                ));
                return r;
            },
        },
    };
    let r = Ok(InboundExchange { received_events: admitted.event_ids.len(), reply: answer });
    assert(exchange_finished(calm, views, reply, admitted.event_ids@, store@, r));
    r
}

// ---------------------------------------------------------------------------
// Laws
// ---------------------------------------------------------------------------

/// An answer is owed only for an invite that this device holds.
pub proof fn law_answer_needs_the_invite(s: StoreState, recovered: Seq<RecoveredView>, i: int)
    requires
        0 <= i,
    ensures
        reply_from(s, recovered, i) matches Some(reply) ==> s.events.events.contains_key(
            reply.invite_event_id@,
        ),
    decreases recovered.len() - i,
{
    if i < recovered.len() {
        law_answer_needs_the_invite(s, recovered, i + 1);
    }
}

/// An answer holds identity events only.
pub proof fn law_answer_holds_identity_events_only(
    s: StoreState,
    ids: Seq<EventId>,
    workspace_id: EventId,
    exclude: Seq<EventId>,
    n: int,
    k: int,
)
    requires
        identity_bytes_upto(s, ids, workspace_id, exclude, n) matches Ok(inners) && 0 <= k
            < inners.len(),
    ensures
        identity_bootstrap((identity_bytes_upto(s, ids, workspace_id, exclude, n)->Ok_0)[k]) == Ok::<
            bool,
            Seq<char>,
        >(true),
    decreases n,
{
    if n > 0 {
        let before = identity_bytes_upto(s, ids, workspace_id, exclude, n - 1)->Ok_0;
        if k < before.len() {
            law_answer_holds_identity_events_only(s, ids, workspace_id, exclude, n - 1, k);
        }
    }
}

/// A requester whose endpoint has a route gets no second one.
pub proof fn law_first_route_wins(m: Rows, request_bytes: Seq<u8>)
    requires
        decoded_request(request_bytes) matches Ok(request) && has_route_to(
            m,
            request.from_endpoint,
        ) == Ok::<bool, Seq<char>>(true),
    ensures
        listener_remembered(m, request_bytes) matches Ok(after) ==> after == m,
{
}

/// An answer holds every identity event of the workspace that is among some events, stored and not
/// excluded, and whatever it holds is such an event.
pub proof fn law_answer_holds_every_identity_event(
    s: StoreState,
    ids: Seq<EventId>,
    workspace_id: EventId,
    exclude: Seq<EventId>,
    n: int,
)
    requires
        0 <= n <= ids.len(),
    ensures
        identity_bytes_upto(s, ids, workspace_id, exclude, n) matches Ok(inners) ==> {
            &&& forall|i: int|
                0 <= i < n && belongs_in_answer(s, workspace_id, exclude, #[trigger] ids[i])
                    ==> inners.contains(s.events.events[ids[i]@].canonical_bytes)
            &&& forall|k: int|
                0 <= k < inners.len() ==> comes_from_one(
                    s,
                    ids,
                    workspace_id,
                    exclude,
                    n,
                    #[trigger] inners[k],
                )
        },
    decreases n,
{
    if n > 0 {
        law_answer_holds_every_identity_event(s, ids, workspace_id, exclude, n - 1);
        if let Ok(inners) = identity_bytes_upto(s, ids, workspace_id, exclude, n) {
            let before = identity_bytes_upto(s, ids, workspace_id, exclude, n - 1)->Ok_0;
            assert forall|i: int|
                0 <= i < n && belongs_in_answer(
                    s,
                    workspace_id,
                    exclude,
                    #[trigger] ids[i],
                ) implies inners.contains(s.events.events[ids[i]@].canonical_bytes) by {
                let bytes = s.events.events[ids[i]@].canonical_bytes;
                if i == n - 1 {
                    assert(inners[before.len() as int] == bytes);
                } else {
                    let j = choose|j: int| 0 <= j < before.len() && before[j] == bytes;
                    assert(inners[j] == bytes);
                }
            }
            assert forall|k: int| 0 <= k < inners.len() implies comes_from_one(
                s,
                ids,
                workspace_id,
                exclude,
                n,
                #[trigger] inners[k],
            ) by {
                if k < before.len() {
                    assert(inners[k] == before[k]);
                    assert(comes_from_one(s, ids, workspace_id, exclude, n - 1, before[k]));
                    let i = choose|i: int|
                        0 <= i < n - 1 && belongs_in_answer(
                            s,
                            workspace_id,
                            exclude,
                            #[trigger] ids[i],
                        ) && s.events.events[ids[i]@].canonical_bytes == before[k];
                    assert(belongs_in_answer(s, workspace_id, exclude, ids[i]));
                } else {
                    assert(belongs_in_answer(s, workspace_id, exclude, ids[n - 1]));
                }
            }
        }
    }
}

/// Some bytes are those of one of the first `n` of some events, and it belongs in an answer.
pub open spec fn comes_from_one(
    s: StoreState,
    ids: Seq<EventId>,
    workspace_id: EventId,
    exclude: Seq<EventId>,
    n: int,
    bytes: Seq<u8>,
) -> bool {
    exists|i: int|
        0 <= i < n && belongs_in_answer(s, workspace_id, exclude, #[trigger] ids[i])
            && s.events.events[ids[i]@].canonical_bytes == bytes
}

/// An event belongs in an answer: it is stored, of the workspace, an identity event, and not
/// excluded.
pub open spec fn belongs_in_answer(
    s: StoreState,
    workspace_id: EventId,
    exclude: Seq<EventId>,
    id: EventId,
) -> bool {
    &&& s.events.events.contains_key(id@)
    &&& s.events.events[id@].workspace_id == Some(workspace_id)
    &&& identity_bootstrap(s.events.events[id@].canonical_bytes) == Ok::<bool, Seq<char>>(true)
    &&& !exclude.contains(id)
}

/// An answer is found wherever one is owed: for each event that came under an invite that is
/// stored here. The first such event decides, and what the answer names is what that event named.
pub proof fn law_owed_answer_is_found(s: StoreState, recovered: Seq<RecoveredView>, i: int)
    requires
        0 <= i <= recovered.len(),
    ensures
        reply_from(s, recovered, i) is Some <==> exists|k: int|
            i <= k < recovered.len() && came_under_known_invite(s, #[trigger] recovered[k]),
        reply_from(s, recovered, i) matches Some(reply) ==> exists|k: int|
            {
                &&& i <= k < recovered.len()
                &&& came_under_known_invite(s, #[trigger] recovered[k])
                &&& recovered[k].provenance.sender_endpoint == reply.sender_endpoint
                &&& recovered[k].provenance.unwrapped_with == (TransitUnwrap::InviteBootstrap {
                    bootstrap_hash: reply.bootstrap_hash,
                    workspace_id: reply.workspace_id,
                    invite_event_id: reply.invite_event_id,
                })
                &&& forall|e: int|
                    i <= e < k ==> !came_under_known_invite(s, #[trigger] recovered[e])
            },
    decreases recovered.len() - i,
{
    if i < recovered.len() {
        law_owed_answer_is_found(s, recovered, i + 1);
        if reply_for(s, recovered[i]) is Some {
            assert(came_under_known_invite(s, recovered[i]));
        } else {
            assert(!came_under_known_invite(s, recovered[i]));
            if let Some(reply) = reply_from(s, recovered, i + 1) {
                let k = choose|k: int|
                    {
                        &&& i + 1 <= k < recovered.len()
                        &&& came_under_known_invite(s, #[trigger] recovered[k])
                        &&& recovered[k].provenance.sender_endpoint == reply.sender_endpoint
                        &&& recovered[k].provenance.unwrapped_with == (
                        TransitUnwrap::InviteBootstrap {
                            bootstrap_hash: reply.bootstrap_hash,
                            workspace_id: reply.workspace_id,
                            invite_event_id: reply.invite_event_id,
                        })
                        &&& forall|e: int|
                            i + 1 <= e < k ==> !came_under_known_invite(s, #[trigger] recovered[e])
                    };
                assert(came_under_known_invite(s, recovered[k]));
            }
        }
    }
}

/// An event came under the key of an invite that is stored here.
pub open spec fn came_under_known_invite(s: StoreState, r: RecoveredView) -> bool {
    r.provenance.unwrapped_with matches TransitUnwrap::InviteBootstrap {
        bootstrap_hash,
        workspace_id,
        invite_event_id,
    } && s.events.events.contains_key(invite_event_id@)
}

proof fn lemma_routed_from(m: Rows, rows: Seq<(Seq<u8>, Seq<u8>)>, endpoint: EventId, i: int)
    requires
        0 <= i <= rows.len(),
    ensures
        routed_from(m, rows, endpoint, i) matches Ok(found) ==> {
            &&& found ==> exists|k: int|
                i <= k < rows.len() && (#[trigger] rows[k]).0.len() == 32 && remote_endpoint_of(
                    m,
                    id_with(rows[k].0),
                ) == Ok::<EventId, Seq<char>>(endpoint)
            &&& !found ==> forall|k: int|
                i <= k < rows.len() ==> (#[trigger] rows[k]).0.len() == 32 && remote_endpoint_of(
                    m,
                    id_with(rows[k].0),
                ) != Ok::<EventId, Seq<char>>(endpoint)
        },
    decreases rows.len() - i,
{
    if i < rows.len() {
        lemma_routed_from(m, rows, endpoint, i + 1);
    }
}

/// An endpoint has a route exactly where some routed connection has it at its other end.
pub proof fn law_route_is_found_where_there_is_one(m: Rows, endpoint: EventId)
    requires
        countable(keys_of(m, TableName::TransportTargets)),
    ensures
        has_route_to(m, endpoint) matches Ok(found) ==> (found <==> exists|c: EventId|
            #[trigger] m.contains_key((TableName::TransportTargets, c@)) && remote_endpoint_of(m, c)
                == Ok::<EventId, Seq<char>>(endpoint)),
{
    let t = TableName::TransportTargets;
    let rows = rows_listed(m, t, Seq::empty(), usize::MAX);
    law_first_rows_come_first(m, t, Seq::empty(), usize::MAX);
    lemma_routed_from(m, rows, endpoint, 0);
    if let Ok(found) = has_route_to(m, endpoint) {
        if found {
            let k = choose|k: int|
                0 <= k < rows.len() && (#[trigger] rows[k]).0.len() == 32 && remote_endpoint_of(
                    m,
                    id_with(rows[k].0),
                ) == Ok::<EventId, Seq<char>>(endpoint);
            let c = id_with(rows[k].0);
            lemma_id_of(rows[k].0, c);
            assert(m.contains_key((t, c@)));
        }
        if exists|c: EventId|
            #[trigger] m.contains_key((t, c@)) && remote_endpoint_of(m, c) == Ok::<
                EventId,
                Seq<char>,
            >(endpoint) {
            let c = choose|c: EventId|
                #[trigger] m.contains_key((t, c@)) && remote_endpoint_of(m, c) == Ok::<
                    EventId,
                    Seq<char>,
                >(endpoint);
            assert(c@.take(0) =~= Seq::<u8>::empty());
            assert(has_prefix(c@, Seq::<u8>::empty()));
            assert(rows.contains((c@, m[(t, c@)])));
            let k = choose|k: int| 0 <= k < rows.len() && rows[k] == (c@, m[(t, c@)]);
            lemma_id_with(c);
            assert(rows[k].0 == c@);
        }
    }
}

/// Where a requester listens is remembered exactly where it is wanted: the request says so, it has
/// made its connection, and the requester has no route yet. Nothing else changes.
pub proof fn law_listener_is_remembered_where_wanted(m: Rows, request_bytes: Seq<u8>)
    requires
        countable(keys_of(m, TableName::TransportTargets)),
    ensures
        listener_remembered(m, request_bytes) matches Ok(after) ==> decoded_request(request_bytes)
            is Ok && {
            let request = decoded_request(request_bytes)->Ok_0;
            let c = connection_id_of(
                event_id_of(request_bytes),
                local_endpoint_of(m)->Ok_0.endpoint,
            );
            &&& after != m ==> request.from_listen_addr is Some && after == m.insert(
                (TableName::TransportTargets, c@),
                request.from_listen_addr->Some_0,
            )
            &&& request.from_listen_addr is Some && remote_endpoint_of(m, c) is Ok && (forall|
                d: EventId,
            |
                #[trigger] m.contains_key((TableName::TransportTargets, d@)) ==> remote_endpoint_of(
                    m,
                    d,
                ) != Ok::<EventId, Seq<char>>(request.from_endpoint)) ==> after.contains_key(
                (TableName::TransportTargets, c@),
            )
        },
{
    if let Ok(request) = decoded_request(request_bytes) {
        law_route_is_found_where_there_is_one(m, request.from_endpoint);
    }
}

} // verus!
