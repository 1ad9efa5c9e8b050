use topo_workers::bytes::EventId;
use topo_workers::connection_facts::{
    encode_invite_secret, encode_request, encode_response, InviteSecretEvent, RequestEvent,
    ResponseEvent, TYPE_CONNECTION_REQUEST, TYPE_CONNECTION_RESPONSE, TYPE_INVITE_SECRET,
    TYPE_SYNC_COMPARE, TYPE_WORKSPACE,
};
use topo_workers::connections::{
    connection_event_row, connection_row, pending_connection_response_row,
};
use topo_workers::dependency_unblock;
use topo_workers::dependency_wake;
use topo_workers::endpoints::{
    endpoint_membership_row, local_endpoint_row, EndpointKeypair, EndpointMembershipRow,
    EndpointRole,
};
use topo_workers::event_admission::{record_from_transit_canonical_in, run, Work};
use topo_workers::event_projection;
use topo_workers::events;
use topo_workers::events::{
    AdmitAndDrain, AdmitRecords, CommandOutput, DrainUntilIdle, EventRegistry, EventWithContext,
    ProjectionOutput, ProposedEvent,
};
use topo_workers::hash::event_id;
use topo_workers::purging::{drain_pending_purges, enqueue_purge_in_tx, purge_event_storage_in_tx};
use topo_workers::recording::{enqueue_proposed_events, record_events, settle};
use topo_workers::schema;
use topo_workers::schema::{TransitProvenance, TransitUnwrap};
use topo_workers::store::Store;
use topo_workers::sync_events::{encode_compare, CompareEvent};
use topo_workers::sync_index::{RangeSummary, TimestampRange};
use topo_workers::tables::TableName;
use topo_workers::transit_in::{
    claim_frames, network_inbound_row, record_opened, Opened, Recovered, TransitInReport,
};
use topo_workers::types::{
    ConnectionScope, EventIndexEntry, EventLabel, EventRecord, EventScope, EventStatus, ReceiveMetadata,
};

const LOCAL_ONLY: u8 = 100;
const CONTENT: u8 = 101;
const REFUSED: u8 = 102;

const ORIGIN: &[u8] = b"127.0.0.1:41001";

/// A few kinds of events, told apart by their first byte.
struct Modules;

fn id_at(bytes: &[u8], at: usize) -> EventId {
    let mut id = [0; 32];
    id.copy_from_slice(&bytes[at..at + 32]);
    id
}

impl EventRegistry for Modules {
    fn record_from_bytes(&self, bytes: Vec<u8>) -> Result<EventRecord, String> {
        let (scope, workspace_id, dependencies) = match bytes.first().copied() {
            Some(TYPE_WORKSPACE) => (EventScope::Shared, Some(event_id(&bytes)), Vec::new()),
            Some(CONTENT) => (
                EventScope::Shared,
                Some(id_at(&bytes, 1)),
                vec![id_at(&bytes, 33)],
            ),
            Some(LOCAL_ONLY) | Some(REFUSED) => (EventScope::Local, None, Vec::new()),
            Some(TYPE_INVITE_SECRET) | Some(TYPE_CONNECTION_REQUEST)
            | Some(TYPE_CONNECTION_RESPONSE) | Some(TYPE_SYNC_COMPARE) => {
                (EventScope::Local, None, Vec::new())
            }
            _ => return Err("unknown event".to_string()),
        };
        Ok(EventRecord {
            timestamp: 1,
            body_len: bytes.len(),
            canonical_bytes: bytes,
            dependencies,
            workspace_id,
            scope,
        })
    }

    fn project_record(
        &self,
        _store: &Store,
        event: &EventWithContext<'_>,
    ) -> Result<ProjectionOutput, String> {
        match event.record.canonical_bytes[0] {
            REFUSED => Err("refused".to_string()),
            TYPE_CONNECTION_REQUEST => match &event.context.receive {
                Some(receive) => Ok(ProjectionOutput::rows(vec![
                    pending_connection_response_row(&event.context.event_id, &receive.origin),
                ])),
                None => Ok(ProjectionOutput::default()),
            },
            CONTENT => Ok(ProjectionOutput::labels(vec![EventLabel {
                event_id: event.context.event_id,
                label: vec![event.context.dependencies.len() as u8],
            }])),
            _ => Ok(ProjectionOutput::default()),
        }
    }
}

fn keypair(seed: u8) -> EndpointKeypair {
    EndpointKeypair {
        endpoint: [seed; 32],
        secret: [seed + 1; 32],
        signing_public_key: [seed + 2; 32],
        signing_secret: [seed + 3; 32],
    }
}

fn enqueue(
    store: &mut Store,
    inner: Vec<u8>,
    local_endpoint: EventId,
    sender_endpoint: EventId,
    unwrapped_with: TransitUnwrap,
) {
    let row = schema::transit_canonical_in_row(
        inner,
        TransitProvenance {
            origin: ORIGIN.to_vec(),
            local_endpoint,
            sender_endpoint,
            remember_route: false,
            unwrapped_with,
        },
    );
    store.tables.insert_table_rows(&vec![row]);
}

fn enqueue_connection_canonical_in(
    store: &mut Store,
    inner: Vec<u8>,
    local_endpoint: EventId,
    sender_endpoint: EventId,
    connection_id: EventId,
) {
    enqueue(
        store,
        inner,
        local_endpoint,
        sender_endpoint,
        TransitUnwrap::Connection { connection_id },
    );
}

fn enqueue_bootstrap_canonical_in(
    store: &mut Store,
    inner: Vec<u8>,
    local_endpoint: EventId,
    sender_endpoint: EventId,
) {
    enqueue(store, inner, local_endpoint, sender_endpoint, TransitUnwrap::Bootstrap);
}

fn enqueue_invite_bootstrap_canonical_in(
    store: &mut Store,
    inner: Vec<u8>,
    local_endpoint: EventId,
    sender_endpoint: EventId,
    workspace_id: EventId,
    invite_event_id: EventId,
) {
    enqueue(
        store,
        inner,
        local_endpoint,
        sender_endpoint,
        TransitUnwrap::InviteBootstrap { bootstrap_hash: [6; 32], workspace_id, invite_event_id },
    );
}

fn add_endpoint_membership(
    store: &mut Store,
    workspace_id: EventId,
    endpoint_shared_id: EventId,
    endpoint: &EndpointKeypair,
) {
    let row = endpoint_membership_row(&EndpointMembershipRow {
        endpoint_id: endpoint.endpoint,
        workspace_id,
        endpoint_shared_id,
        signing_public_key: endpoint.signing_public_key,
        endpoint_role: EndpointRole::Device,
    });
    store.tables.insert_table_rows(&vec![row]);
}

fn add_invite_authorized_connection(
    store: &mut Store,
    local: &EndpointKeypair,
    remote: &EndpointKeypair,
    workspace_id: EventId,
) -> EventId {
    let invite_bytes = encode_invite_secret(&InviteSecretEvent {
        bootstrap_secret: [7; 32],
        bootstrap_hash: event_id(&[7; 32]),
        workspace_id: Some(workspace_id),
        invite_event_id: Some([8; 32]),
    });
    let invite_secret_event_id = event_id(&invite_bytes);
    let request_bytes = encode_request(&RequestEvent {
        from_endpoint: local.endpoint,
        to_endpoint: remote.endpoint,
        nonce: [9; 32],
        bootstrap_hash: event_id(&[7; 32]),
        invite_secret_event_id,
        from_listen_addr: None,
    });
    let request_id = event_id(&request_bytes);
    let response_bytes = encode_response(&response(remote, local, request_id));
    let connection_id = event_id(&response_bytes);
    for bytes in [invite_bytes, request_bytes, response_bytes] {
        let record = Modules.record_from_bytes(bytes).expect("record");
        assert!(store.events.insert_event(&record, EventStatus::Applied));
    }
    connection_id
}

fn response(from: &EndpointKeypair, to: &EndpointKeypair, request_id: EventId) -> ResponseEvent {
    ResponseEvent {
        from_endpoint: from.endpoint,
        to_endpoint: to.endpoint,
        request_id,
        responder_ephemeral_secret_event_id: [6; 32],
        responder_ephemeral_public_key: [5; 32],
        handshake_hash: [4; 32],
        connection_secret: [5; 32],
    }
}

fn content_bytes(workspace_id: EventId, dependency: EventId) -> Vec<u8> {
    let mut bytes = vec![CONTENT];
    bytes.extend_from_slice(&workspace_id);
    bytes.extend_from_slice(&dependency);
    bytes
}

fn signed_content_bytes(workspace_id: EventId) -> Vec<u8> {
    content_bytes(workspace_id, [8; 32])
}

fn local_only_bytes() -> Vec<u8> {
    vec![LOCAL_ONLY, 1, 2, 3]
}

fn workspace_bytes(name: &str) -> Vec<u8> {
    let mut bytes = vec![TYPE_WORKSPACE];
    bytes.extend_from_slice(name.as_bytes());
    bytes
}

#[test]
fn transit_canonical_admission_rejects_local_only_event_from_known_connection() {
    let local = keypair(30);
    let remote = keypair(40);
    let connection_id = [3; 32];
    let mut store = Store::new();
    let local_only = local_only_bytes();
    let local_only_id = event_id(&local_only);
    enqueue_connection_canonical_in(
        &mut store,
        local_only,
        local.endpoint,
        remote.endpoint,
        connection_id,
    );

    let err = run(&mut store, &Modules, Work::Drain { limit: 1 })
        .expect_err("remote local-only event must reject");

    assert!(
        err.contains("connection transit only accepts shared or connection-scoped events"),
        "{err}"
    );
    assert_eq!(
        store.tables.table_row_count(schema::CANONICAL_IN),
        0,
        "rejected inner bytes must not poison canonical admission"
    );
    assert!(
        !store.events.has_event(&local_only_id),
        "rejected local-only event must not be stored"
    );
}

#[test]
fn bootstrap_transit_rejects_non_shared_identity_event() {
    let local = keypair(30);
    let remote = keypair(40);
    let mut store = Store::new();
    let local_only = local_only_bytes();
    let local_only_id = event_id(&local_only);
    enqueue_bootstrap_canonical_in(&mut store, local_only, local.endpoint, remote.endpoint);

    let err = run(&mut store, &Modules, Work::Drain { limit: 1 })
        .expect_err("bootstrap non-request must reject");

    assert!(
        err.contains("endpoint bootstrap transit only carries connection requests or responses"),
        "{err}"
    );
    assert!(
        !store.events.has_event(&local_only_id),
        "bootstrap transit must not admit unrelated local facts"
    );
}

#[test]
fn invite_bootstrap_transit_admits_identity_event_for_envelope_workspace() {
    let local = keypair(30);
    let remote = keypair(40);
    let mut store = Store::new();
    let workspace = workspace_bytes("invite-bootstrap");
    let workspace_id = event_id(&workspace);
    enqueue_invite_bootstrap_canonical_in(
        &mut store,
        workspace,
        local.endpoint,
        remote.endpoint,
        workspace_id,
        [8; 32],
    );

    let admitted = run(&mut store, &Modules, Work::Drain { limit: 1 })
        .expect("invite bootstrap workspace should admit");

    assert_eq!(admitted.applied_events, 1);
    assert!(
        store.events.has_event(&workspace_id),
        "invite bootstrap shared identity event should be stored"
    );
}

#[test]
fn connection_transit_admits_shared_event_only_after_workspace_check() {
    let local = keypair(30);
    let remote = keypair(40);
    let connection_id = [3; 32];
    let workspace_id = [7; 32];
    let mut store = Store::new();
    add_endpoint_membership(&mut store, workspace_id, [20; 32], &local);
    add_endpoint_membership(&mut store, workspace_id, [21; 32], &remote);
    let content = signed_content_bytes(workspace_id);
    let content_id = event_id(&content);
    enqueue_connection_canonical_in(
        &mut store,
        content,
        local.endpoint,
        remote.endpoint,
        connection_id,
    );

    let admitted = run(&mut store, &Modules, Work::Drain { limit: 1 })
        .expect("shared event should admit after workspace check");

    assert_eq!(admitted.blocked_events, 1);
    assert!(
        store.events.has_event(&content_id),
        "shared remote event should enter durable admission"
    );
}

#[test]
fn connection_transit_admits_shared_event_for_invite_authorized_workspace() {
    let local = keypair(30);
    let remote = keypair(40);
    let workspace_id = [7; 32];
    let mut store = Store::new();
    let connection_id =
        add_invite_authorized_connection(&mut store, &local, &remote, workspace_id);
    let content = signed_content_bytes(workspace_id);
    let content_id = event_id(&content);
    enqueue_connection_canonical_in(
        &mut store,
        content,
        local.endpoint,
        remote.endpoint,
        connection_id,
    );

    let admitted = run(&mut store, &Modules, Work::Drain { limit: 1 })
        .expect("invite-authorized shared event should enter admission");

    assert_eq!(admitted.blocked_events, 1);
    assert!(
        store.events.has_event(&content_id),
        "valid invite authority should allow shared workspace events onto the dependency pipeline"
    );
}

#[test]
fn connection_transit_rejects_invite_authorized_event_outside_invite_workspace() {
    let local = keypair(30);
    let remote = keypair(40);
    let mut store = Store::new();
    let connection_id = add_invite_authorized_connection(&mut store, &local, &remote, [7; 32]);
    let content = signed_content_bytes([6; 32]);
    let content_id = event_id(&content);
    enqueue_connection_canonical_in(
        &mut store,
        content,
        local.endpoint,
        remote.endpoint,
        connection_id,
    );

    let err = run(&mut store, &Modules, Work::Drain { limit: 1 })
        .expect_err("wrong workspace must reject");

    assert!(
        err.contains("transit shared in rejected event outside sender workspace"),
        "{err}"
    );
    assert!(
        !store.events.has_event(&content_id),
        "invite authority must stay scoped to the invite workspace"
    );
}

#[test]
fn connection_transit_rejects_shared_event_outside_sender_workspace() {
    let local = keypair(30);
    let remote = keypair(40);
    let connection_id = [3; 32];
    let mut store = Store::new();
    let content = signed_content_bytes([7; 32]);
    let content_id = event_id(&content);
    enqueue_connection_canonical_in(
        &mut store,
        content,
        local.endpoint,
        remote.endpoint,
        connection_id,
    );

    let err = run(&mut store, &Modules, Work::Drain { limit: 1 })
        .expect_err("out-of-scope workspace event must reject");

    assert!(
        err.contains("transit shared in rejected event outside sender workspace"),
        "{err}"
    );
    assert!(
        !store.events.has_event(&content_id),
        "out-of-scope remote event must not be stored"
    );
}

#[test]
fn connection_transit_carries_no_handshake() {
    let local = keypair(30);
    let remote = keypair(40);
    let store = Store::new();
    let provenance = TransitProvenance {
        origin: ORIGIN.to_vec(),
        local_endpoint: local.endpoint,
        sender_endpoint: remote.endpoint,
        remember_route: true,
        unwrapped_with: TransitUnwrap::Connection { connection_id: [3; 32] },
    };
    let request = vec![TYPE_CONNECTION_REQUEST];
    assert_eq!(
        record_from_transit_canonical_in(&store, &Modules, request, &provenance).err(),
        Some("connection transit cannot carry connection requests".to_string())
    );
    let response = vec![TYPE_CONNECTION_RESPONSE];
    assert_eq!(
        record_from_transit_canonical_in(&store, &Modules, response, &provenance).err(),
        Some("connection transit cannot carry connection responses".to_string())
    );
    let compare = encode_compare(&CompareEvent {
        connection_id: [3; 32],
        range: TimestampRange::root(),
        summary: RangeSummary { count: 0, fingerprint: [0; 32] },
        response_requested: true,
    });
    let received = record_from_transit_canonical_in(&store, &Modules, compare, &provenance)
        .expect("sync events are carried");
    assert_eq!(
        received.record().scope,
        EventScope::Connection(ConnectionScope::Incoming { connection_id: [3; 32] })
    );
}

#[test]
fn invite_bootstrap_transit_stays_in_its_workspace() {
    let local = keypair(30);
    let remote = keypair(40);
    let mut store = Store::new();
    let workspace = workspace_bytes("other");
    enqueue_invite_bootstrap_canonical_in(
        &mut store,
        workspace,
        local.endpoint,
        remote.endpoint,
        [1; 32],
        [8; 32],
    );
    let err = run(&mut store, &Modules, Work::Drain { limit: 1 }).expect_err("other workspace");
    assert!(
        err.contains("invite bootstrap transit rejected event outside invite workspace"),
        "{err}"
    );

    enqueue_invite_bootstrap_canonical_in(
        &mut store,
        signed_content_bytes([1; 32]),
        local.endpoint,
        remote.endpoint,
        [1; 32],
        [8; 32],
    );
    let err = run(&mut store, &Modules, Work::Drain { limit: 1 }).expect_err("no identity event");
    assert!(
        err.contains("invite bootstrap transit only accepts identity bootstrap events"),
        "{err}"
    );
    assert_eq!(store.tables.table_row_count(schema::CANONICAL_IN), 0);
}

#[test]
fn drains_network_frames_into_canonical_in_without_admitting_inner_event() {
    let local = keypair(30);
    let remote = keypair(40);
    let connection_id = [3; 32];
    let mut store = Store::new();
    let connection = response(&remote, &local, [9; 32]);
    store.tables.insert_table_rows(&vec![
        local_endpoint_row(&local),
        connection_row(&connection_id, &remote.endpoint),
        connection_event_row(&connection_id, &encode_response(&connection)),
    ]);
    let inner = b"inner canonical bytes".to_vec();
    store.tables.insert_table_rows(&vec![network_inbound_row(ORIGIN, b"sealed frame")]);

    let frames = claim_frames(&store, 1).expect("claim frames");
    assert_eq!(frames.len(), 1);
    assert_eq!(frames[0].source, ORIGIN.to_vec());
    assert_eq!(frames[0].bytes, b"sealed frame".to_vec());
    let opened = Opened::Holds {
        recovered: vec![Recovered {
            canonical_bytes: inner.clone(),
            provenance: TransitProvenance {
                origin: frames[0].source.clone(),
                local_endpoint: local.endpoint,
                sender_endpoint: remote.endpoint,
                remember_route: false,
                unwrapped_with: TransitUnwrap::Connection { connection_id },
            },
        }],
    };
    let mut report = TransitInReport { network_frames: 0, canonical_rows: 0 };
    record_opened(&mut store, &frames[0].key, opened, &mut report).expect("drain transit in");

    assert_eq!(report.network_frames, 1);
    assert_eq!(report.canonical_rows, 1);
    assert_eq!(
        store.tables.table_row_count(TableName::NetworkInbound),
        0,
        "accepted network rows are consumed"
    );
    let queued = schema::claim_canonical_in(&store, 1).expect("claim canonical in");
    assert_eq!(queued.len(), 1);
    assert_eq!(queued[0].canonical_bytes, inner);
    assert!(
        queued[0].provenance.is_some(),
        "canonical admission receives transit provenance as queue metadata"
    );
    assert!(!store.events.has_event(&event_id(&inner)));
}

#[test]
fn bootstrap_request_drain_uses_canonical_queue_boundary() {
    let alice = keypair(30);
    let bob = keypair(40);
    let mut store = Store::new();
    store.tables.insert_table_rows(&vec![local_endpoint_row(&alice)]);
    let invite = encode_invite_secret(&InviteSecretEvent {
        bootstrap_secret: [7; 32],
        bootstrap_hash: event_id(&[7; 32]),
        workspace_id: None,
        invite_event_id: None,
    });
    let invite_secret_event_id = event_id(&invite);
    let invite = Modules.record_from_bytes(invite).expect("invite secret");
    events::run(&mut store, &Modules, CommandOutput::with_events((), vec![invite]))
        .expect("admit invite secret");
    let stale = Modules
        .record_from_bytes(encode_invite_secret(&InviteSecretEvent {
            bootstrap_secret: [99; 32],
            bootstrap_hash: event_id(&[99; 32]),
            workspace_id: None,
            invite_event_id: None,
        }))
        .expect("stale canonical record");
    store.tables.insert_table_rows(&vec![schema::canonical_in_row(stale, None)]);
    let request_bytes = encode_request(&RequestEvent {
        from_endpoint: bob.endpoint,
        to_endpoint: alice.endpoint,
        nonce: [9; 32],
        bootstrap_hash: event_id(&[7; 32]),
        invite_secret_event_id,
        from_listen_addr: Some(ORIGIN.to_vec()),
    });
    let request_id = event_id(&request_bytes);
    store.tables.insert_table_rows(&vec![network_inbound_row(ORIGIN, b"bootstrap frame")]);

    let frames = claim_frames(&store, 1).expect("claim frames");
    let opened = Opened::Holds {
        recovered: vec![Recovered {
            canonical_bytes: request_bytes,
            provenance: TransitProvenance {
                origin: frames[0].source.clone(),
                local_endpoint: alice.endpoint,
                sender_endpoint: bob.endpoint,
                remember_route: false,
                unwrapped_with: TransitUnwrap::Bootstrap,
            },
        }],
    };
    let mut report = TransitInReport { network_frames: 0, canonical_rows: 0 };
    record_opened(&mut store, &frames[0].key, opened, &mut report).expect("drain transit frame");

    assert_eq!(report.network_frames, 1);
    assert_eq!(report.canonical_rows, 1);
    assert_eq!(
        store.tables.table_row_count(schema::CANONICAL_IN),
        2,
        "recovered bytes join the canonical queue without being admitted directly"
    );

    let admitted = run(&mut store, &Modules, Work::Drain { limit: 2 })
        .expect("admit queued canonical events");
    assert_eq!(admitted.inserted_events, 2);
    event_projection::run(&mut store, &Modules, event_projection::Work::Drain { limit: 16 })
        .expect("project");
    assert_eq!(
        store.tables.table_row(TableName::PendingConnectionResponses, &request_id),
        Some(ORIGIN.to_vec())
    );
    assert_eq!(
        store.tables.table_row_count(schema::CANONICAL_IN),
        0,
        "admission consumes canonical queue rows"
    );
}

#[test]
fn refused_frame_is_consumed_and_reported() {
    let mut store = Store::new();
    store.tables.insert_table_rows(&vec![network_inbound_row(ORIGIN, b"garbage")]);
    let frames = claim_frames(&store, 4).expect("claim frames");
    let mut report = TransitInReport { network_frames: 0, canonical_rows: 0 };
    let err = record_opened(
        &mut store,
        &frames[0].key,
        Opened::Refused { cause: "no key opens it".to_string() },
        &mut report,
    )
    .expect_err("refused");
    assert!(err.contains("no key opens it"), "{err}");
    assert_eq!(store.tables.table_row_count(TableName::NetworkInbound), 0);
    assert_eq!(store.tables.table_row_count(schema::CANONICAL_IN), 0);
    assert_eq!(report.canonical_rows, 0);
}

#[test]
fn purge_event_storage_removes_local_retention_rows_but_keeps_labels() {
    let mut store = Store::new();
    let workspace_id = [1; 32];
    let missing_dep_id = [2; 32];
    let record = EventRecord {
        timestamp: 42,
        body_len: 12,
        canonical_bytes: b"purge-target".to_vec(),
        dependencies: Vec::new(),
        workspace_id: Some(workspace_id),
        scope: EventScope::Shared,
    };
    let target_id = event_id(&record.canonical_bytes);
    let label = b"local-retention-proof".to_vec();

    assert!(store.events.insert_event(&record, EventStatus::Ready));
    store.events.insert_blocked_event_missing_dep(&missing_dep_id, &target_id);
    store.events.insert_labels(&vec![EventLabel { event_id: target_id, label: label.clone() }]);

    let purged = purge_event_storage_in_tx(&mut store, &target_id);

    assert!(purged);
    assert!(store.events.event_bytes(&target_id).is_none());
    assert_eq!(
        store.events.event_index_entries_in_timestamp_range(0, u64::MAX),
        Vec::new()
    );
    assert_eq!(
        store.events.blocked_events_by_missing_dep(&missing_dep_id),
        Vec::<EventId>::new()
    );
    assert!(!store.events.blocked_event_has_missing_deps(&target_id));
    assert_eq!(store.events.event_labels(&target_id), vec![label]);
}

#[test]
fn purge_event_storage_reports_missing_event_as_noop() {
    let mut store = Store::new();
    let missing_id = [9; 32];

    let purged = purge_event_storage_in_tx(&mut store, &missing_id);

    assert!(!purged);
}

#[test]
fn queued_purges_are_listed_with_their_ids() {
    let mut store = Store::new();
    enqueue_purge_in_tx(&mut store, Some([1; 32]), &[2; 32]);
    enqueue_purge_in_tx(&mut store, Some([1; 32]), &[2; 32]);
    let pending = drain_pending_purges(&store, 10).expect("pending");
    assert_eq!(pending.len(), 1);
    assert_eq!(pending[0].event_id, [2; 32]);
}

#[test]
fn blocked_event_waits_for_its_dependency() {
    let mut store = Store::new();
    let workspace = workspace_bytes("waiting");
    let workspace_id = event_id(&workspace);
    let content = content_bytes(workspace_id, workspace_id);
    let content_id = event_id(&content);

    let record = Modules.record_from_bytes(content).expect("content");
    let admitted = events::run(&mut store, &Modules, AdmitRecords { records: vec![record] })
        .expect("admit content");
    assert_eq!(admitted.event_ids, vec![content_id]);
    assert_eq!(admitted.blocked_events, 1);
    assert_eq!(admitted.blocked_edges, 1);
    assert_eq!(admitted.ready_events, 0);
    assert_eq!(store.events.event_status(&content_id), Some(EventStatus::Blocked));

    let record = Modules.record_from_bytes(workspace).expect("workspace");
    let output = CommandOutput::with_events("done", vec![record]);
    let report = events::run(&mut store, &Modules, AdmitAndDrain { output, batch_size: 8 })
        .expect("admit and drain");
    assert_eq!(report.value, "done");
    assert_eq!(report.admitted.ready_events, 1);
    assert_eq!(store.events.event_status(&workspace_id), Some(EventStatus::Applied));

    settle(&mut store, &Modules).expect("settle");
    assert_eq!(store.events.event_status(&content_id), Some(EventStatus::Applied));
    assert_eq!(
        store.events.event_labels(&content_id),
        vec![vec![1]],
        "the module saw one dependency"
    );
    assert!(!store.events.blocked_event_has_missing_deps(&content_id));
}

#[test]
fn unblock_workers_wake_what_waited() {
    let mut store = Store::new();
    let workspace = workspace_bytes("waking");
    let workspace_id = event_id(&workspace);
    let content = content_bytes(workspace_id, workspace_id);
    let content_id = event_id(&content);
    let content = Modules.record_from_bytes(content).expect("content");
    events::run(&mut store, &Modules, AdmitRecords { records: vec![content] }).expect("admit");
    let workspace = Modules.record_from_bytes(workspace).expect("workspace");
    store.events.insert_event(&workspace, EventStatus::Applied);
    store
        .tables
        .insert_table_rows(&vec![schema::recently_valid_event_row(workspace_id)]);
    let mut copy = store.duplicate();

    let woken = dependency_unblock::run(&mut store, dependency_unblock::Work::Drain { limit: 8 })
        .expect("unblock");
    assert_eq!(woken.unblocked_events, 1);
    assert_eq!(woken.applied_events, 0);
    assert_eq!(store.events.event_status(&content_id), Some(EventStatus::Ready));
    assert_eq!(store.tables.table_row_count(schema::RECENTLY_VALID_EVENTS), 0);

    let woken = dependency_wake::run(&mut copy, dependency_wake::Work::Drain { limit: 8 })
        .expect("wake");
    assert_eq!(woken.unblocked_events, 1);
    assert_eq!(copy.events.event_status(&content_id), Some(EventStatus::Ready));

    let applied =
        event_projection::run(&mut store, &Modules, event_projection::Work::Drain { limit: 8 })
            .expect("project");
    assert_eq!(applied.applied_events, 1);
}

#[test]
fn failed_projection_changes_nothing() {
    let mut store = Store::new();
    let refused = Modules.record_from_bytes(vec![REFUSED]).expect("record");
    let refused_id = event_id(&refused.canonical_bytes);
    let err = record_events(
        &mut store,
        &Modules,
        vec![ProposedEvent::new(refused)],
        "record refused",
    )
    .expect_err("projection refuses");
    assert!(err.contains("refused"), "{err}");
    let _ = events::run(&mut store, &Modules, DrainUntilIdle { batch_size: 4 });
    assert_ne!(store.events.event_status(&refused_id), Some(EventStatus::Applied));
}

#[test]
fn admitting_twice_inserts_once() {
    let mut store = Store::new();
    let workspace = Modules.record_from_bytes(workspace_bytes("twice")).expect("workspace");
    let first =
        events::run(&mut store, &Modules, AdmitRecords { records: vec![workspace.clone()] })
            .expect("first");
    assert_eq!(first.inserted_events, 1);
    let second = events::run(&mut store, &Modules, AdmitRecords { records: vec![workspace] })
        .expect("second");
    assert_eq!(second.inserted_events, 0);
    assert_eq!(second.event_ids, first.event_ids);
}

#[test]
fn receive_context_is_kept_until_the_event_is_projected() {
    let mut store = Store::new();
    let receive = ReceiveMetadata::bootstrap_invite(ORIGIN.to_vec(), [1; 32], [2; 32], true);
    store
        .tables
        .insert_table_rows(&vec![schema::event_receive_context_row([3; 32], receive.clone())]);
    assert_eq!(schema::event_receive_context(&store, &[3; 32]), Ok(Some(receive)));
    assert_eq!(schema::event_receive_context(&store, &[4; 32]), Ok(None));
    assert_eq!(schema::delete_event_receive_context_in_tx(&mut store, &[3; 32]), 1);
    assert_eq!(schema::delete_event_receive_context_in_tx(&mut store, &[3; 32]), 0);
    assert_eq!(schema::event_receive_context(&store, &[3; 32]), Ok(None));
}

#[test]
fn proposed_events_go_through_the_canonical_queue() {
    let mut store = Store::new();
    let workspace = Modules.record_from_bytes(workspace_bytes("queued")).expect("workspace");
    let workspace_id = event_id(&workspace.canonical_bytes);
    enqueue_proposed_events(&mut store, &vec![ProposedEvent::new(workspace)]);
    assert_eq!(store.tables.table_row_count(schema::CANONICAL_IN), 1);
    assert!(!store.events.has_event(&workspace_id));
    run(&mut store, &Modules, Work::Drain { limit: 4 }).expect("admit");
    assert!(store.events.has_event(&workspace_id));
    assert_eq!(store.tables.table_row_count(schema::CANONICAL_IN), 0);
}

#[test]
fn batch_size_does_not_matter() {
    let mut store = Store::new();
    let workspace = workspace_bytes("batches");
    let workspace_id = event_id(&workspace);
    let mut records = vec![Modules.record_from_bytes(workspace).expect("workspace")];
    for name in ["a", "b", "c", "d"] {
        let mut bytes = content_bytes(workspace_id, workspace_id);
        bytes.extend_from_slice(name.as_bytes());
        records.push(Modules.record_from_bytes(bytes).expect("content"));
    }
    for record in &records {
        store.events.insert_event(record, EventStatus::Ready);
    }
    let mut small = store.duplicate();
    let one = events::run(&mut store, &Modules, DrainUntilIdle { batch_size: 100 }).expect("one");
    let many = events::run(&mut small, &Modules, DrainUntilIdle { batch_size: 2 }).expect("many");
    assert_eq!(one.applied_events, many.applied_events);
    assert_eq!(one.unblocked_events, many.unblocked_events);
    for record in &records {
        let id = event_id(&record.canonical_bytes);
        assert_eq!(store.events.event_status(&id), small.events.event_status(&id));
        assert_eq!(store.events.event_labels(&id), small.events.event_labels(&id));
    }
}

#[test]
fn batch_size_zero_drains_like_any_other() {
    let mut store = Store::new();
    for name in ["a", "b", "c"] {
        let record = Modules.record_from_bytes(workspace_bytes(name)).expect("workspace");
        store.events.insert_event(&record, EventStatus::Ready);
    }
    let report =
        events::run(&mut store, &Modules, DrainUntilIdle { batch_size: 0 }).expect("drain");
    assert_eq!(report.applied_events, 3);
    let report =
        events::run(&mut store, &Modules, DrainUntilIdle { batch_size: 7 }).expect("drain again");
    assert_eq!(report.applied_events, 0, "nothing is left");
}

#[test]
fn dependencies_count_once_in_any_order() {
    let mut store = Store::new();
    let needed = [[9; 32], [4; 32], [9; 32], [4; 32]];
    let mut record = Modules
        .record_from_bytes(content_bytes([1; 32], [4; 32]))
        .expect("content");
    record.dependencies = needed.to_vec();
    let first = events::run(&mut store, &Modules, AdmitRecords { records: vec![record.clone()] })
        .expect("admit");
    assert_eq!(first.blocked_edges, 2, "each dependency once");
    let mut other = Store::new();
    record.dependencies = vec![[4; 32], [9; 32]];
    let second = events::run(&mut other, &Modules, AdmitRecords { records: vec![record] })
        .expect("admit");
    assert_eq!(first, second);
}

#[test]
fn queued_events_are_claimed_as_they_were_queued() {
    let mut store = Store::new();
    let receive = ReceiveMetadata::bootstrap_invite(ORIGIN.to_vec(), [1; 32], [2; 32], true);
    let first = Modules.record_from_bytes(workspace_bytes("first")).expect("workspace");
    let second = Modules.record_from_bytes(workspace_bytes("second")).expect("workspace");
    let a = schema::canonical_in_row(first.clone(), Some(receive.clone()));
    let b = schema::canonical_in_row(second.clone(), Some(receive.clone()));
    assert_ne!(a.value, b.value, "different events are queued as different values");
    assert_ne!(a.key, b.key);
    store.tables.insert_table_rows(&vec![a, b]);
    let claimed = schema::claim_canonical_in(&store, 9).expect("claim");
    assert_eq!(claimed.len(), 2);
    for record in [first, second] {
        let row = claimed
            .iter()
            .find(|row| row.canonical_bytes == record.canonical_bytes)
            .expect("queued event");
        assert_eq!(row.receive, Some(receive.clone()));
        assert!(row.provenance.is_none());
    }
}

#[test]
fn origin_that_is_no_text_is_refused() {
    let mut store = Store::new();
    let workspace = Modules.record_from_bytes(workspace_bytes("origin")).expect("workspace");
    let receive = ReceiveMetadata::bootstrap_invite(vec![0x31, 0xff], [1; 32], [2; 32], true);
    store.tables.insert_table_rows(&vec![schema::canonical_in_row(workspace, Some(receive))]);
    let err = schema::claim_canonical_in(&store, 9).err().expect("refused");
    assert!(err.contains("canonical in receive origin is not utf8: "), "{err}");
    assert!(err.contains("invalid utf-8 sequence of 1 bytes from index 1"), "{err}");

    let mut store = Store::new();
    let provenance = TransitProvenance {
        origin: vec![0xc3],
        local_endpoint: [1; 32],
        sender_endpoint: [2; 32],
        remember_route: false,
        unwrapped_with: TransitUnwrap::Connection { connection_id: [3; 32] },
    };
    let row = schema::transit_canonical_in_row(workspace_bytes("origin"), provenance);
    store.tables.insert_table_rows(&vec![row]);
    let err = schema::claim_canonical_in(&store, 9).err().expect("refused");
    assert!(err.contains("canonical in transit origin is not utf8: "), "{err}");
}

#[test]
fn applied_shared_events_are_queued_in_time_order() {
    let entry = |timestamp: u64, id: u8| EventIndexEntry {
        event_id: [id; 32],
        timestamp,
        workspace_id: Some([5; 32]),
    };
    let mut store = Store::new();
    for queued in [entry(256, 1), entry(7, 9), entry(7, 2), entry(255, 8)] {
        store.tables.insert_table_rows(&vec![schema::applied_shared_event_row(queued)]);
    }
    let claimed: Vec<(u64, EventId)> = schema::claim_applied_shared_events(&store, 9)
        .expect("claim")
        .iter()
        .map(|event| (event.entry.timestamp, event.entry.event_id))
        .collect();
    assert_eq!(
        claimed,
        vec![(7, [2; 32]), (7, [9; 32]), (255, [8; 32]), (256, [1; 32])]
    );
}
