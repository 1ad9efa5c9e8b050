use topo_workers::bytes::EventId;
use topo_workers::connections::{bootstrap_workspace_row, connection_row, transport_target_row};
use topo_workers::endpoints::{
    endpoint_membership_row, local_endpoint_row, EndpointKeypair, EndpointMembershipRow,
    EndpointRole,
};
use topo_workers::events::{
    unique_dependencies, EventRegistry, EventWithContext, ProjectionOutput,
};
use topo_workers::hash::{domain_hash, event_id};
use topo_workers::negentropy_purge_drainer;
use topo_workers::peer_supervisor;
use topo_workers::peer_supervisor::PeerCursor;
use topo_workers::purging::{enqueue_purge_in_tx, NEGENTROPY_PENDING_PURGES};
use topo_workers::schema;
use topo_workers::store::Store;
use topo_workers::sync::{
    run, tick_report, Output, SyncContext, SyncSelection, Work, DEFAULT_INBOUND_BATCH,
    DEFAULT_INDEX_BATCH,
};
use topo_workers::sync_events::{compare_record, decode_compare, encode_compare, CompareEvent};
use topo_workers::sync_inbound::{
    record_replies, response_connection_id, AnsweredSync, InboundSync, SyncReply,
};
use topo_workers::sync_index;
use topo_workers::sync_index::{RangeSummary, SyncIndex, TimestampRange};
use topo_workers::sync_protocol;
use topo_workers::tables::TableRow;
use topo_workers::types::{
    ConnectionScope, EventIndexEntry, EventRecord, EventScope, EventStatus,
};

fn keypair(seed: u8) -> EndpointKeypair {
    EndpointKeypair {
        endpoint: [seed; 32],
        secret: [seed + 1; 32],
        signing_public_key: [seed + 2; 32],
        signing_secret: [seed + 3; 32],
    }
}

fn membership_row(workspace_id: EventId, endpoint: &EndpointKeypair, seed: u8) -> TableRow {
    endpoint_membership_row(&EndpointMembershipRow {
        endpoint_id: endpoint.endpoint,
        workspace_id,
        endpoint_shared_id: [seed; 32],
        signing_public_key: endpoint.signing_public_key,
        endpoint_role: EndpointRole::Device,
    })
}

fn routed_sync_store(local: &EndpointKeypair, remote: &EndpointKeypair) -> Store {
    let mut store = Store::new();
    let connection_id = [3; 32];
    let workspace_id = [5; 32];
    store.tables.insert_table_rows(&vec![
        local_endpoint_row(local),
        connection_row(&connection_id, &remote.endpoint),
        transport_target_row(&connection_id, b"127.0.0.1:41000"),
        membership_row(workspace_id, local, 20),
        membership_row(workspace_id, remote, 21),
    ]);
    store
}

#[test]
fn start_rounds_only_from_lower_endpoint_peer() {
    let lower = keypair(50);
    let higher = keypair(60);

    let mut lower_store = routed_sync_store(&lower, &higher);
    let mut higher_store = routed_sync_store(&higher, &lower);
    let mut index = SyncIndex::new();

    let lower_output = run(
        &mut lower_store,
        &mut index,
        Work::Start { selection: SyncSelection::All },
    )
    .expect("lower endpoint starts sync");
    let Output::Started(lower_output) = lower_output else {
        panic!("expected start output");
    };
    assert_eq!(lower_output.value.sent_events, 1);
    assert_eq!(lower_output.events.len(), 1);

    let higher_output = run(
        &mut higher_store,
        &mut index,
        Work::Start { selection: SyncSelection::All },
    )
    .expect("higher endpoint does not start sync");
    let Output::Started(higher_output) = higher_output else {
        panic!("expected start output");
    };
    assert_eq!(higher_output.value.sent_events, 0);
    assert!(higher_output.events.is_empty());
}

fn workspace_record(name: &str) -> EventRecord {
    EventRecord {
        timestamp: 1,
        body_len: name.len(),
        canonical_bytes: name.as_bytes().to_vec(),
        dependencies: Vec::new(),
        workspace_id: Some(event_id(name.as_bytes())),
        scope: EventScope::Shared,
    }
}

fn inbound_compare(store: &mut Store, connection_id: EventId) {
    let compare = CompareEvent {
        connection_id,
        range: TimestampRange::root(),
        summary: RangeSummary { count: 0, fingerprint: [0; 32] },
        response_requested: true,
    };
    let bytes = encode_compare(&compare);
    let row = schema::sync_in_event_row(connection_id, event_id(&bytes), bytes);
    store.tables.insert_table_rows(&vec![row]);
}

/// Answer a comparison with the local summary, on the connection that the answer goes to.
fn answer(index: &SyncIndex, inbound: InboundSync) -> AnsweredSync {
    let asked = decode_compare(&inbound.event.event_bytes).expect("comparison");
    let record = compare_record(&CompareEvent {
        connection_id: inbound.response_connection_id,
        range: asked.range,
        summary: inbound.context.summary(index, asked.range),
        response_requested: false,
    });
    AnsweredSync {
        event: inbound.event,
        reply: SyncReply {
            processed_work: 1,
            sent_events: 1,
            events: vec![record],
            transit_out: Vec::new(),
        },
    }
}

#[test]
fn tick_responds_on_routed_connection_to_same_remote_endpoint() {
    let mut store = Store::new();
    let local = keypair(50);
    let remote = keypair(60);
    let inbound_connection_id = [1; 32];
    let response_connection_id = [2; 32];
    let workspace = workspace_record("sync-in-route");
    let workspace_id = event_id(&workspace.canonical_bytes);
    store.events.insert_event(&workspace, EventStatus::Applied);
    store.tables.insert_table_rows(&vec![
        local_endpoint_row(&local),
        connection_row(&inbound_connection_id, &remote.endpoint),
        connection_row(&response_connection_id, &remote.endpoint),
        transport_target_row(&response_connection_id, b"127.0.0.1:41000"),
        membership_row(workspace_id, &local, 10),
        membership_row(workspace_id, &remote, 11),
    ]);
    inbound_compare(&mut store, inbound_connection_id);

    let mut index = SyncIndex::new();
    let output = run(
        &mut store,
        &mut index,
        Work::Tick {
            index_limit: DEFAULT_INDEX_BATCH,
            inbound_limit: DEFAULT_INBOUND_BATCH,
            selection: SyncSelection::All,
        },
    )
    .expect("tick sync");
    let Output::Ticked(mut ticked) = output else {
        panic!("expected sync tick output");
    };
    let inbound = std::mem::take(&mut ticked.inbound);
    assert_eq!(inbound.len(), 1);
    let answered: Vec<AnsweredSync> =
        inbound.into_iter().map(|event| answer(&index, event)).collect();
    let replies = record_replies(&mut store, &answered);
    let report = tick_report(&ticked, &replies);

    assert_eq!(report.processed_work, 1);
    assert!(!replies.events.is_empty(), "local summary should produce response events");
    for event in &replies.events {
        assert_eq!(
            event.scope,
            EventScope::Connection(ConnectionScope::Outgoing {
                connection_id: response_connection_id,
            })
        );
    }
    assert_eq!(store.tables.table_row_count(schema::SYNC_IN_EVENTS), 0);
}

#[test]
fn tick_prefers_steady_state_route_over_bootstrap_invite_route_for_responses() {
    let mut store = Store::new();
    let local = keypair(50);
    let remote = keypair(60);
    let inbound_connection_id = [1; 32];
    let bootstrap_route_id = [2; 32];
    let steady_route_id = [3; 32];
    let workspace = workspace_record("sync-route-choice");
    let workspace_id = event_id(&workspace.canonical_bytes);
    store.events.insert_event(&workspace, EventStatus::Applied);
    store.tables.insert_table_rows(&vec![
        local_endpoint_row(&local),
        connection_row(&inbound_connection_id, &remote.endpoint),
        connection_row(&bootstrap_route_id, &remote.endpoint),
        connection_row(&steady_route_id, &remote.endpoint),
        transport_target_row(&bootstrap_route_id, b"127.0.0.1:41000"),
        transport_target_row(&steady_route_id, b"127.0.0.1:42000"),
        bootstrap_workspace_row(&bootstrap_route_id, &workspace_id),
        membership_row(workspace_id, &local, 10),
        membership_row(workspace_id, &remote, 11),
    ]);
    inbound_compare(&mut store, inbound_connection_id);

    let mut index = SyncIndex::new();
    let output = run(
        &mut store,
        &mut index,
        Work::DrainIn { limit: DEFAULT_INBOUND_BATCH },
    )
    .expect("drain sync in");
    let Output::DrainedIn(inbound) = output else {
        panic!("expected sync drain output");
    };
    let answered: Vec<AnsweredSync> =
        inbound.into_iter().map(|event| answer(&index, event)).collect();
    let replies = record_replies(&mut store, &answered);

    assert!(!replies.events.is_empty(), "local summary should produce response events");
    for event in &replies.events {
        assert_eq!(
            event.scope,
            EventScope::Connection(ConnectionScope::Outgoing { connection_id: steady_route_id })
        );
    }
}

#[test]
fn answer_goes_back_where_no_route_is_known() {
    let mut store = Store::new();
    store.tables.insert_table_rows(&vec![connection_row(&[1; 32], &[9; 32])]);
    assert_eq!(response_connection_id(&store, &[1; 32]), Ok([1; 32]));
    assert!(response_connection_id(&store, &[2; 32]).is_err());
}

fn enqueue(store: &mut Store, workspace_id: EventId, event_id: EventId) {
    enqueue_purge_in_tx(store, Some(workspace_id), &event_id);
}

fn entry(timestamp: u64, event_id: EventId, workspace_id: EventId) -> EventIndexEntry {
    EventIndexEntry { event_id, timestamp, workspace_id: Some(workspace_id) }
}

fn drain(store: &mut Store, index: &mut SyncIndex, limit: usize) -> (usize, usize) {
    let report = negentropy_purge_drainer::run(
        store,
        index,
        negentropy_purge_drainer::Work::Drain { limit },
    )
    .expect("drain");
    (report.drained_rows, report.removed_from_index)
}

#[test]
fn drain_removes_queued_ids_from_in_memory_index() {
    let mut store = Store::new();
    let mut index = SyncIndex::new();
    let workspace_id = [1u8; 32];
    let id_a = [2u8; 32];
    let id_b = [3u8; 32];
    let id_c = [4u8; 32];

    for (ts, id) in [(10, id_a), (20, id_b), (30, id_c)] {
        index.insert_entry(entry(ts, id, workspace_id));
    }
    let pre_summary = index.root_summary();
    let pre_count = index.indexed_event_count();
    assert_eq!(pre_count, 3);

    enqueue(&mut store, workspace_id, id_a);
    enqueue(&mut store, workspace_id, id_c);
    let (drained_rows, removed_from_index) = drain(&mut store, &mut index, 16);
    assert_eq!(drained_rows, 2);
    assert_eq!(removed_from_index, 2);

    let post_summary = index.root_summary();
    assert_ne!(pre_summary, post_summary, "summary must change after purge");
    assert_eq!(index.indexed_event_count(), 1);
    assert!(!index.contains_event(&id_a));
    assert!(!index.contains_event(&id_c));
    assert!(index.contains_event(&id_b));
    assert_eq!(
        store.tables.table_row_count(NEGENTROPY_PENDING_PURGES),
        0,
        "queue must be empty after drain"
    );
}

fn build_indexed(ids: &[EventId], workspace_id: EventId) -> SyncIndex {
    let mut index = SyncIndex::new();
    for (at, id) in ids.iter().enumerate() {
        index.insert_entry(entry(1000 + at as u64, *id, workspace_id));
    }
    index
}

#[test]
fn drain_is_deterministic_under_two_drain_orderings() {
    let workspace_id = [9u8; 32];
    let ids: Vec<EventId> = (0..16u8).map(|i| [i; 32]).collect();

    let mut store_a = Store::new();
    let mut index_a = build_indexed(&ids, workspace_id);
    for id in ids.iter() {
        enqueue(&mut store_a, workspace_id, *id);
    }
    drain(&mut store_a, &mut index_a, 64);

    let mut store_b = Store::new();
    let mut index_b = build_indexed(&ids, workspace_id);
    for id in ids.iter().rev() {
        enqueue(&mut store_b, workspace_id, *id);
    }
    drain(&mut store_b, &mut index_b, 64);

    let summary_a = index_a.root_summary();
    let summary_b = index_b.root_summary();
    assert_eq!(summary_a, summary_b);
    assert_eq!(summary_a.count, 0);
    assert_eq!(summary_a.fingerprint, [0u8; 32]);
}

#[test]
fn partial_drain_under_purge_subset_yields_same_summary_for_two_orderings() {
    let workspace_id = [11u8; 32];
    let live_ids: Vec<EventId> = (0..6u8).map(|i| [i; 32]).collect();
    let purged_ids: Vec<EventId> = (10..16u8).map(|i| [i; 32]).collect();
    let all_ids: Vec<EventId> = live_ids.iter().chain(purged_ids.iter()).copied().collect();

    let mut store_a = Store::new();
    let mut index_a = build_indexed(&all_ids, workspace_id);
    for id in purged_ids.iter() {
        enqueue(&mut store_a, workspace_id, *id);
    }
    drain(&mut store_a, &mut index_a, 64);

    let mut store_b = Store::new();
    let mut index_b = build_indexed(&all_ids, workspace_id);
    for id in purged_ids.iter().rev() {
        enqueue(&mut store_b, workspace_id, *id);
    }
    drain(&mut store_b, &mut index_b, 64);

    let summary_a = index_a.root_summary();
    let summary_b = index_b.root_summary();
    assert_eq!(summary_a, summary_b);
    assert_eq!(summary_a.count, live_ids.len() as u64);
}

#[test]
fn drain_on_empty_queue_is_noop() {
    let mut store = Store::new();
    let mut index = SyncIndex::new();
    let (drained_rows, removed_from_index) = drain(&mut store, &mut index, 16);
    assert_eq!(drained_rows, 0);
    assert_eq!(removed_from_index, 0);
}

#[test]
fn drain_after_index_already_updated_clears_queue_row_idempotently() {
    let mut store = Store::new();
    let mut index = SyncIndex::new();
    let workspace_id = [3u8; 32];
    let event_id = [7u8; 32];
    enqueue(&mut store, workspace_id, event_id);
    let (drained_rows, removed_from_index) = drain(&mut store, &mut index, 16);
    assert_eq!(drained_rows, 1);
    assert_eq!(removed_from_index, 0);
    assert_eq!(store.tables.table_row_count(NEGENTROPY_PENDING_PURGES), 0);
}

#[test]
fn summary_is_the_count_and_the_xor_of_the_digests() {
    let mut index = SyncIndex::new();
    assert!(index.insert_entry(entry(10, [2; 32], [1; 32])));
    assert!(!index.insert_entry(entry(10, [2; 32], [1; 32])));
    let one = index.root_summary();
    assert_eq!(one.count, 1);
    assert_eq!(one.fingerprint, domain_hash(b"sync-event-id:", &[2; 32]));
    assert_eq!(one.fingerprint, *blake3::hash(&[b"sync-event-id:".as_slice(), &[2; 32]].concat()).as_bytes());

    index.insert_entry(entry(5, [3; 32], [1; 32]));
    let two = index.root_summary();
    assert_eq!(two.count, 2);
    let other = domain_hash(b"sync-event-id:", &[3; 32]);
    for at in 0..32 {
        assert_eq!(two.fingerprint[at], one.fingerprint[at] ^ other[at]);
    }
    assert!(index.remove_event(&[3; 32]));
    assert!(!index.remove_event(&[3; 32]));
    assert_eq!(index.root_summary(), one);
}

#[test]
fn ranges_list_entries_by_time_with_both_ends() {
    let mut index = SyncIndex::new();
    index.insert_entry(entry(30, [1; 32], [1; 32]));
    index.insert_entry(entry(10, [3; 32], [1; 32]));
    index.insert_entry(entry(20, [2; 32], [2; 32]));
    let listed: Vec<EventId> = index
        .ids_in_range(TimestampRange { start: 10, end: 20 })
        .iter()
        .map(|e| e.event_id)
        .collect();
    assert_eq!(listed, vec![[3; 32], [2; 32]]);
    let context = SyncContext { workspace_ids: vec![[1; 32]] };
    let seen: Vec<EventId> = context
        .entries_in_range(&index, TimestampRange::root())
        .iter()
        .map(|e| e.event_id)
        .collect();
    assert_eq!(seen, vec![[3; 32], [1; 32]], "only shared workspaces are seen");
    assert_eq!(context.timestamp_bounds(&index, TimestampRange::root()), Some((10, 30)));
    assert_eq!(context.summary(&index, TimestampRange::root()).count, 2);
    assert_eq!(
        SyncContext { workspace_ids: Vec::new() }.timestamp_bounds(&index, TimestampRange::root()),
        None
    );
}

#[test]
fn days_start_at_midnight() {
    let day = TimestampRange::containing_day(86_400_000 + 5);
    assert_eq!(day.start, 86_400_000);
    assert_eq!(day.end, 2 * 86_400_000 - 1);
    let last = TimestampRange::containing_day(u64::MAX);
    assert_eq!(last.end, u64::MAX);
}

#[test]
fn applied_events_are_learned_in_any_order() {
    let mut store = Store::new();
    let entries = [entry(7, [8; 32], [1; 32]), entry(3, [9; 32], [1; 32])];
    for e in entries {
        store.tables.insert_table_rows(&vec![schema::applied_shared_event_row(e)]);
    }
    let mut index = SyncIndex::new();
    let report = sync_index::run(&mut store, &mut index, sync_index::Work::Drain { limit: 1 })
        .expect("drain");
    assert_eq!(report.indexed_events, 1);
    let Output::Indexed(rest) =
        sync_protocol::run(&mut store, &mut index, Work::DrainIndex { limit: 8 }).expect("index")
    else {
        panic!("expected index output");
    };
    assert_eq!(rest.indexed_events, 1);
    assert_eq!(store.tables.table_row_count(schema::APPLIED_SHARED_EVENTS), 0);

    let mut other = SyncIndex::new();
    other.insert_entry(entries[1]);
    other.insert_entry(entries[0]);
    assert_eq!(index.root_summary(), other.root_summary());
}

struct Chain;

impl EventRegistry for Chain {
    fn record_from_bytes(&self, bytes: Vec<u8>) -> Result<EventRecord, String> {
        if bytes.len() % 32 != 1 {
            return Err("no link".to_string());
        }
        let dependencies = bytes[1..]
            .chunks(32)
            .map(|chunk| {
                let mut id = [0; 32];
                id.copy_from_slice(chunk);
                id
            })
            .collect();
        Ok(EventRecord {
            timestamp: bytes[0] as u64,
            body_len: bytes.len(),
            canonical_bytes: bytes,
            dependencies,
            workspace_id: Some([1; 32]),
            scope: EventScope::Shared,
        })
    }

    fn project_record(
        &self,
        _store: &Store,
        _event: &EventWithContext<'_>,
    ) -> Result<ProjectionOutput, String> {
        Ok(ProjectionOutput::default())
    }
}

#[test]
fn closure_holds_what_the_roots_need() {
    let mut store = Store::new();
    let mut index = SyncIndex::new();
    let mut ids: Vec<EventId> = Vec::new();
    for at in 0..4u8 {
        let mut bytes = vec![at];
        if let Some(before) = ids.last() {
            bytes.extend_from_slice(before);
        }
        let record = Chain.record_from_bytes(bytes).expect("link");
        let id = event_id(&record.canonical_bytes);
        store.events.insert_event(&record, EventStatus::Applied);
        index.insert_entry(entry(at as u64, id, [1; 32]));
        ids.push(id);
    }
    let closure = index
        .dependency_closure_entries(&store, &Chain, &vec![entry(2, ids[2], [1; 32])])
        .expect("closure");
    let found: Vec<EventId> = closure.iter().map(|e| e.event_id).collect();
    assert_eq!(found, vec![ids[0], ids[1]], "in order of time, without the roots");

    index.insert_entry(entry(9, [77; 32], [1; 32]));
    assert_eq!(
        index.dependency_closure_entries(&store, &Chain, &vec![entry(9, [77; 32], [1; 32])]),
        Err("sync index referenced missing dependency event".to_string())
    );
}

#[test]
fn comparison_reads_back_what_was_written() {
    let compare = CompareEvent {
        connection_id: [4; 32],
        range: TimestampRange { start: 5, end: 9 },
        summary: RangeSummary { count: 3, fingerprint: [6; 32] },
        response_requested: true,
    };
    let bytes = encode_compare(&compare);
    let read = decode_compare(&bytes).expect("comparison");
    assert_eq!(read.connection_id, compare.connection_id);
    assert_eq!(read.range.start, 5);
    assert_eq!(read.range.end, 9);
    assert_eq!(read.summary, compare.summary);
    assert!(read.response_requested);
    assert!(decode_compare(&bytes[..bytes.len() - 1]).is_err());
}

#[test]
fn supervisor_starts_one_peer_and_queues_its_round() {
    let lower = keypair(50);
    let higher = keypair(60);
    let mut store = routed_sync_store(&higher, &lower);
    let mut index = SyncIndex::new();
    let mut cursor = PeerCursor::new();
    let report = peer_supervisor::run(
        &mut store,
        &mut index,
        &mut cursor,
        peer_supervisor::Work::StartNextPeer { work_limit: 8 },
    )
    .expect("supervise");
    assert_eq!(report.considered_peers, 1);
    assert_eq!(report.started_peer, Some([3; 32]));
    assert_eq!(report.sent_events, 1);
    assert_eq!(store.tables.table_row_count(schema::CANONICAL_IN), 1);

    let mut idle = routed_sync_store(&lower, &higher);
    let report = peer_supervisor::run(
        &mut idle,
        &mut index,
        &mut PeerCursor::new(),
        peer_supervisor::Work::StartNextPeer { work_limit: 8 },
    )
    .expect("supervise");
    assert_eq!(report.sent_events, 0);
}

#[test]
fn summary_is_one_of_ids_in_any_order() {
    let a = vec![entry(1, [1; 32], [7; 32]), entry(2, [2; 32], [7; 32])];
    let b = vec![entry(3, [3; 32], [7; 32])];
    let together = sync_index::summarize_entries(&[a.clone(), b.clone()].concat());
    let shuffled = sync_index::summarize_entries(&vec![
        entry(90, [3; 32], [8; 32]),
        entry(80, [1; 32], [8; 32]),
        entry(70, [2; 32], [9; 32]),
    ]);
    assert_eq!(together, shuffled, "timestamps, workspaces and order do not matter");
    let (first, second) = (sync_index::summarize_entries(&a), sync_index::summarize_entries(&b));
    assert_eq!(together.count, first.count + second.count);
    for at in 0..32 {
        assert_eq!(together.fingerprint[at], first.fingerprint[at] ^ second.fingerprint[at]);
    }
}

#[test]
fn dependencies_are_listed_once_in_the_order_of_their_ids() {
    let (a, b, c) = ([1; 32], [2; 32], [3; 32]);
    assert_eq!(unique_dependencies(&vec![c, a, b, a, c]), vec![a, b, c]);
    assert_eq!(unique_dependencies(&vec![a, b, c]), vec![a, b, c]);
    assert_eq!(unique_dependencies(&Vec::new()), Vec::<EventId>::new());
}
