use topo_workers::bootstrap_connect::{
    check_identity_scope, initial_bootstrap_inner_bytes, record_invite_acceptance, record_request,
    remember_connected_routes, route_to_keep, ExchangeState,
};
use topo_workers::bootstrap_exchange::{
    connection_id, endpoint_has_routed_connection, invite_bootstrap_reply,
    invite_bootstrap_response, invite_secret_by_hash, invite_secret_row, process_inbound,
    remember_advertised_listener, workspace_identity_bootstrap_event_bytes, InviteBootstrapReply,
};
use topo_workers::bytes::EventId;
use topo_workers::connection::{
    check_stored_response, connection_request_frame, connection_response_frame, is_connected,
    merge_report, note_attempt, note_response, pending_connection_attempts,
    pending_connection_responses, record_response, step_attempt, AttemptStep, ConnectionReport,
    FrameOutcome, ResponderMaterial, ResponseFrame,
};
use topo_workers::connection_facts::{
    decode_ephemeral_secret, decode_invite_secret, decode_request, decode_response,
    encode_ephemeral_secret, encode_invite_secret, encode_request, encode_response,
    is_identity_bootstrap_event, EphemeralSecretEvent, InviteSecretEvent, RequestEvent,
    ResponseEvent, TYPE_ADMIN, TYPE_SIGNED, TYPE_WORKSPACE,
};
use topo_workers::connections::{
    bootstrap_workspace_id, bootstrap_workspace_row, connection_event_bytes, connection_event_row,
    connection_id_for_request, connection_ids_with_routes, connection_row,
    connection_scoped_event_row, pending_connection_attempt_row, pending_connection_response_row,
    remote_endpoint, request_connection_row, routes, transport_target_row, AddressedId,
};
use topo_workers::endpoints::{
    endpoint_membership, endpoint_membership_row, local_endpoint, local_endpoint_row,
    mutual_workspace_ids, EndpointKeypair, EndpointMembershipRow, EndpointRole,
};
use topo_workers::events::{EventRegistry, EventWithContext, ProjectionOutput, ProposedEvent};
use topo_workers::hash::event_id;
use topo_workers::schema;
use topo_workers::schema::{TransitProvenance, TransitUnwrap};
use topo_workers::store::Store;
use topo_workers::tables::{TableName, TableRow};
use topo_workers::transit_in::Recovered;
use topo_workers::transit_out::{
    batch_transit_out_items, carried_events, drain_transit_out_routes, frame_keys,
    mark_sent_network_rows,
    note_route, remember_connection_route, remember_sent_rows, transit_out_items_for_connection,
    RouteExchangeReport, SendOutcome, SentRows, TransitOutItem, TRANSIT_TARGET_PLAINTEXT_BYTES,
};
use topo_workers::types::{EventRecord, EventScope, EventStatus};

const ADDR: &[u8] = b"127.0.0.1:41000";
const WORKSPACE: EventId = [1; 32];

struct Modules;

impl EventRegistry for Modules {
    fn record_from_bytes(&self, bytes: Vec<u8>) -> Result<EventRecord, String> {
        let scope = match bytes.first().copied() {
            Some(TYPE_WORKSPACE) | Some(TYPE_SIGNED) => EventScope::Shared,
            Some(_) => EventScope::Local,
            None => return Err("no event".to_string()),
        };
        Ok(EventRecord {
            timestamp: 1,
            body_len: bytes.len(),
            canonical_bytes: bytes,
            dependencies: Vec::new(),
            workspace_id: Some(WORKSPACE),
            scope,
        })
    }

    fn project_record(
        &self,
        _store: &Store,
        _event: &EventWithContext<'_>,
    ) -> Result<ProjectionOutput, String> {
        Ok(ProjectionOutput::default())
    }
}

fn keypair(seed: u8) -> EndpointKeypair {
    EndpointKeypair {
        endpoint: [seed; 32],
        secret: [seed + 1; 32],
        signing_public_key: [seed + 2; 32],
        signing_secret: [seed + 3; 32],
    }
}

fn store_with(rows: Vec<TableRow>) -> Store {
    let mut store = Store::new();
    store.tables.insert_table_rows(&rows);
    store
}

fn record(bytes: &[u8]) -> EventRecord {
    Modules.record_from_bytes(bytes.to_vec()).expect("record")
}

#[test]
fn exchange_routes_removes_rows_whose_bytes_are_gone() {
    let local = keypair(50);
    let connection_id = [3; 32];
    let missing_event_id = [4; 32];
    let mut store = store_with(vec![
        local_endpoint_row(&local),
        connection_row(&connection_id, &[60; 32]),
        transport_target_row(&connection_id, ADDR),
        schema::transit_out_row(connection_id, missing_event_id),
    ]);

    let outbound = drain_transit_out_routes(&mut store).expect("drain out");
    let mut report = RouteExchangeReport::default();
    for route in &outbound {
        for _ in &route.batches {
            note_route(
                &mut report,
                SendOutcome::Sent { sent_events: 1, received_events: 0 },
                "127.0.0.1:41000",
                true,
            )
            .expect("route");
        }
    }

    assert_eq!(report, RouteExchangeReport::default());
    assert_eq!(store.tables.table_row_count(schema::TRANSIT_OUT), 0);
}

#[test]
fn completed_pending_attempt_becomes_route_and_leaves_queue() {
    let local = keypair(50);
    let request_id = [2; 32];
    let connection_id = [3; 32];
    let mut store = store_with(vec![
        local_endpoint_row(&local),
        pending_connection_attempt_row(&request_id, ADDR),
        request_connection_row(&request_id, &connection_id),
    ]);

    let mut output = ConnectionReport::default();
    for attempt in pending_connection_attempts(&store).expect("pending attempts") {
        let step = step_attempt(&mut store, &attempt, &mut output).expect("drain connection work");
        assert!(matches!(step, AttemptStep::Completed));
    }

    assert_eq!(output.attempts_completed, 1);
    assert_eq!(store.tables.table_row_count(TableName::PendingConnectionAttempts), 0);
    assert_eq!(
        store.tables.table_row(TableName::TransportTargets, &connection_id),
        Some(ADDR.to_vec())
    );
    assert_eq!(is_connected(&store, &request_id), Ok(true));
    assert_eq!(is_connected(&store, &[9; 32]), Ok(false));
}

fn request(local: &EndpointKeypair, secret_id: EventId, listen: Option<&[u8]>) -> Vec<u8> {
    encode_request(&RequestEvent {
        from_endpoint: local.endpoint,
        to_endpoint: [60; 32],
        nonce: [9; 32],
        bootstrap_hash: [6; 32],
        invite_secret_event_id: secret_id,
        from_listen_addr: listen.map(|addr| addr.to_vec()),
    })
}

#[test]
fn pending_attempt_is_sent_from_the_local_endpoint_only() {
    let local = keypair(50);
    let request_bytes = request(&local, [8; 32], None);
    let request_id = event_id(&request_bytes);
    let mut store = store_with(vec![
        local_endpoint_row(&local),
        connection_event_row(&request_id, &request_bytes),
        connection_scoped_event_row(&request_id, &request_bytes),
    ]);
    let attempt = AddressedId { id: request_id, addr: ADDR.to_vec() };
    let mut report = ConnectionReport::default();
    match step_attempt(&mut store, &attempt, &mut report).expect("step") {
        AttemptStep::Send { frame } => {
            assert_eq!(frame.to_endpoint, [60; 32]);
            assert_eq!(frame.request_bytes, request_bytes);
            assert_eq!(frame.local.endpoint, local.endpoint);
        }
        _ => panic!("expected a frame to send"),
    }

    let other = store_with(vec![
        local_endpoint_row(&keypair(70)),
        connection_event_row(&request_id, &request_bytes),
        connection_scoped_event_row(&request_id, &request_bytes),
    ]);
    assert_eq!(
        connection_request_frame(&other, &request_id).err(),
        Some("pending connection request sender is not the local endpoint".to_string())
    );
    assert!(connection_request_frame(&store, &[77; 32]).is_err());
}

#[test]
fn failures_are_counted_or_returned() {
    let mut report = ConnectionReport::default();
    note_attempt(&mut report, FrameOutcome::Sent { sent_events: 2 }, "a", true).expect("sent");
    assert_eq!(report.attempts_sent, 1);
    assert_eq!(report.sent_events, 2);
    note_attempt(
        &mut report,
        FrameOutcome::Unsent { cause: "down".to_string() },
        "10.0.0.1:1",
        false,
    )
    .expect("counted");
    assert_eq!(report.failed_attempts, 1);
    assert_eq!(
        note_attempt(
            &mut report,
            FrameOutcome::Unsent { cause: "down".to_string() },
            "10.0.0.1:1",
            true,
        ),
        Err("sync pending connection request 10.0.0.1:1: down".to_string())
    );
    assert_eq!(
        note_attempt(
            &mut report,
            FrameOutcome::Unprepared { cause: "no key".to_string() },
            "10.0.0.1:1",
            true,
        ),
        Err("prepare pending connection request 10.0.0.1:1: no key".to_string())
    );
    let mut total = ConnectionReport::default();
    merge_report(&mut total, &report);
    merge_report(&mut total, &report);
    assert_eq!(total.attempts_sent, 2);
    assert_eq!(total.sent_events, 4);
    assert_eq!(total.failed_attempts, 2);

    let mut exchange = RouteExchangeReport::default();
    let failed = SendOutcome::Failed { cause: "down".to_string() };
    assert_eq!(
        note_route(&mut exchange, failed, "10.0.0.1:1", true),
        Err("exchange outbound route 10.0.0.1:1: down".to_string())
    );
    let failed = SendOutcome::Failed { cause: "down".to_string() };
    note_route(&mut exchange, failed, "10.0.0.1:1", false).expect("counted");
    assert_eq!(exchange.failed_routes, 1);
    let sent = SendOutcome::Sent { sent_events: 3, received_events: 2 };
    note_route(&mut exchange, sent, "10.0.0.1:1", false).expect("sent");
    assert_eq!(exchange.routes_synced, 1);
    assert_eq!(exchange.sent_events, 3);
    assert_eq!(exchange.received_events, 2);
}

#[test]
fn unsent_response_stays_pending() {
    let request_id = [2; 32];
    let mut store = store_with(vec![pending_connection_response_row(&request_id, ADDR)]);
    let pending = pending_connection_responses(&store).expect("pending");
    assert_eq!(pending.len(), 1);
    assert_eq!(pending[0].id, request_id);
    assert_eq!(pending[0].addr, ADDR.to_vec());

    let mut report = ConnectionReport::default();
    let unsent = FrameOutcome::Unsent { cause: "down".to_string() };
    note_response(&mut store, &mut report, &request_id, unsent, "a", false).expect("counted");
    assert_eq!(report.failed_responses, 1);
    assert_eq!(store.tables.table_row_count(TableName::PendingConnectionResponses), 1);

    let sent = FrameOutcome::Sent { sent_events: 1 };
    note_response(&mut store, &mut report, &request_id, sent, "a", true).expect("sent");
    assert_eq!(report.responses_sent, 1);
    assert_eq!(store.tables.table_row_count(TableName::PendingConnectionResponses), 0);
}

#[test]
fn stored_response_is_answered_again() {
    let local = keypair(60);
    let secret = encode_invite_secret(&InviteSecretEvent {
        bootstrap_secret: [7; 32],
        bootstrap_hash: [6; 32],
        workspace_id: Some(WORKSPACE),
        invite_event_id: Some([8; 32]),
    });
    let secret_id = event_id(&secret);
    let request_bytes = request(&keypair(50), secret_id, None);
    let request_id = event_id(&request_bytes);
    let ephemeral = encode_ephemeral_secret(&EphemeralSecretEvent {
        ephemeral_private_key: [5; 32],
    });
    let response = ResponseEvent {
        from_endpoint: local.endpoint,
        to_endpoint: [50; 32],
        request_id,
        responder_ephemeral_secret_event_id: event_id(&ephemeral),
        responder_ephemeral_public_key: [4; 32],
        handshake_hash: [3; 32],
        connection_secret: [2; 32],
    };
    let response_bytes = encode_response(&response);
    let connection_id = event_id(&response_bytes);
    let mut store = store_with(vec![
        local_endpoint_row(&local),
        connection_event_row(&request_id, &request_bytes),
        connection_scoped_event_row(&request_id, &request_bytes),
    ]);
    for bytes in [&secret, &ephemeral, &request_bytes, &response_bytes] {
        store.events.insert_event(&record(bytes), EventStatus::Applied);
    }

    match connection_response_frame(&store, &request_id).expect("new response") {
        ResponseFrame::New { request, invite_secret, .. } => {
            assert_eq!(request.from_endpoint, [50; 32]);
            assert_eq!(invite_secret.bootstrap_secret, [7; 32]);
        }
        _ => panic!("expected a new response"),
    }

    store.tables.insert_table_rows(&vec![
        request_connection_row(&request_id, &connection_id),
        connection_event_row(&connection_id, &response_bytes),
        connection_scoped_event_row(&connection_id, &response_bytes),
    ]);
    match connection_response_frame(&store, &request_id).expect("stored response") {
        ResponseFrame::Stored { response: stored, response_bytes: bytes, .. } => {
            assert_eq!(bytes, response_bytes);
            let material = ResponderMaterial {
                handshake_hash: [3; 32],
                connection_secret: [2; 32],
                response_key: [1; 32],
            };
            assert_eq!(check_stored_response(&stored, &material), Ok(()));
            let wrong = ResponderMaterial { handshake_hash: [9; 32], ..material };
            assert_eq!(
                check_stored_response(&stored, &wrong),
                Err("stored connection response handshake hash does not match".to_string())
            );
            let wrong = ResponderMaterial { connection_secret: [9; 32], ..material };
            assert_eq!(
                check_stored_response(&stored, &wrong),
                Err("stored connection response secret does not match".to_string())
            );
        }
        _ => panic!("expected the stored response"),
    }
    assert!(connection_response_frame(&store, &[77; 32]).is_err());
}

#[test]
fn recorded_response_is_admitted() {
    let mut store = Store::new();
    let bytes = vec![TYPE_SIGNED, TYPE_ADMIN];
    record_response(&mut store, &Modules, vec![ProposedEvent::new(record(&bytes))])
        .expect("record");
    assert!(store.events.has_event(&event_id(&bytes)));
}

#[test]
fn unsent_entries_stay_and_sent_ones_go() {
    let local = keypair(50);
    let connection_id = [3; 32];
    let first = record(b"\x02\x03first");
    let second = record(b"\x02\x03second");
    let first_id = event_id(&first.canonical_bytes);
    let second_id = event_id(&second.canonical_bytes);
    let mut store = store_with(vec![
        local_endpoint_row(&local),
        connection_row(&connection_id, &[60; 32]),
        transport_target_row(&connection_id, ADDR),
        schema::transit_out_row(connection_id, first_id),
        schema::transit_out_row(connection_id, second_id),
        schema::transit_out_row([4; 32], second_id),
    ]);
    store.events.insert_event(&first, EventStatus::Applied);
    store.events.insert_event(&second, EventStatus::Applied);

    let drained = transit_out_items_for_connection(&store, &connection_id).expect("items");
    assert_eq!(drained.items.len(), 2);
    assert!(drained.stale_keys.is_empty());

    let outbound = drain_transit_out_routes(&mut store).expect("drain out");
    assert_eq!(outbound.len(), 1);
    assert_eq!(outbound[0].connection_id, connection_id);
    assert_eq!(outbound[0].addr, ADDR.to_vec());
    assert_eq!(outbound[0].remote, [60; 32]);
    assert_eq!(outbound[0].batches.len(), 1);

    let keys = frame_keys(&outbound[0]);
    let rows = vec![b"network row".to_vec()];
    let mut sent: SentRows = SentRows::new();
    assert_eq!(
        remember_sent_rows(&mut sent, &Vec::new(), &keys),
        Err("more out keys than outbound network rows".to_string())
    );
    remember_sent_rows(&mut sent, &rows, &keys).expect("remember");
    mark_sent_network_rows(&mut store, &vec![b"another row".to_vec()], &mut sent);
    assert_eq!(store.tables.table_row_count(schema::TRANSIT_OUT), 3);
    mark_sent_network_rows(&mut store, &rows, &mut sent);
    assert_eq!(
        store.tables.table_row_count(schema::TRANSIT_OUT),
        1,
        "only the entry of the other connection is left"
    );
    assert_eq!(sent.len(), 0);
}

fn item(number: u8, size: usize) -> TransitOutItem {
    TransitOutItem {
        key: schema::TransitOutKey { connection_id: [3; 32], event_id: [number; 32] },
        event_bytes: vec![number; size],
    }
}

#[test]
fn batches_hold_all_events_in_order() {
    assert!(batch_transit_out_items(Vec::new()).is_empty());
    let half = TRANSIT_TARGET_PLAINTEXT_BYTES / 2;
    let batches = batch_transit_out_items(vec![
        item(1, half),
        item(2, half),
        item(3, 10),
        item(4, TRANSIT_TARGET_PLAINTEXT_BYTES + 1),
        item(5, 1),
    ]);
    let numbers: Vec<Vec<u8>> = batches
        .iter()
        .map(|batch| batch.iter().map(|item| item.key.event_id[0]).collect())
        .collect();
    assert_eq!(numbers.concat(), vec![1, 2, 3, 4, 5]);
    assert!(numbers.len() >= 3);
    assert!(numbers.contains(&vec![4]), "an event that is too large travels alone");
}

#[test]
fn invite_carries_identity_events_only() {
    let identity = record(&[TYPE_SIGNED, TYPE_ADMIN, 5]);
    assert_eq!(
        initial_bootstrap_inner_bytes(&WORKSPACE, &vec![identity.clone()]),
        Ok(vec![identity.canonical_bytes.clone()])
    );
    assert_eq!(
        initial_bootstrap_inner_bytes(&[2; 32], &vec![identity.clone()]),
        Err("initial invite event is outside invite workspace".to_string())
    );
    let local = record(&[200]);
    assert_eq!(
        initial_bootstrap_inner_bytes(&WORKSPACE, &vec![identity, local]),
        Err("initial invite events must be shared events".to_string())
    );
    let content = record(&[TYPE_SIGNED, 40]);
    assert_eq!(
        initial_bootstrap_inner_bytes(&WORKSPACE, &vec![content]),
        Err("initial invite event must be an identity bootstrap event".to_string())
    );
    assert_eq!(check_identity_scope(true), Ok(()));
    assert_eq!(
        check_identity_scope(false),
        Err("initial invite events require an identity-scoped invite".to_string())
    );
    assert_eq!(
        is_identity_bootstrap_event(&[TYPE_SIGNED]),
        Err("signed envelope is truncated".to_string())
    );
}

#[test]
fn exchange_names_each_connection_once() {
    let mut state = ExchangeState::new();
    state.note_sent(2);
    state.note_received(3, &vec![[1; 32], [2; 32]]);
    state.note_received(1, &vec![[2; 32], [3; 32]]);
    assert_eq!(state.sent_events, 2);
    assert_eq!(state.received_events, 4);
    assert_eq!(state.connection_ids, vec![[1; 32], [2; 32], [3; 32]]);
    let mut store = Store::new();
    remember_connected_routes(&mut store, ADDR, &state.connection_ids);
    assert_eq!(
        connection_ids_with_routes(&store),
        Ok(vec![[1; 32], [2; 32], [3; 32]])
    );
}

#[test]
fn request_and_acceptance_are_recorded() {
    let mut store = Store::new();
    let request = ProposedEvent::new(record(&[20, 1]));
    record_request(&mut store, &Modules, vec![request], Some(([3; 32], ADDR.to_vec())))
        .expect("record request");
    assert!(store.events.has_event(&event_id(&[20, 1])));
    assert_eq!(
        store.tables.table_row(TableName::TransportTargets, &[3; 32]),
        Some(ADDR.to_vec())
    );
    let endpoint = ProposedEvent::new(record(&[21, 1]));
    let accepted = ProposedEvent::new(record(&[22, 1]));
    record_invite_acceptance(&mut store, &Modules, vec![endpoint], vec![accepted])
        .expect("record acceptance");
    assert!(store.events.has_event(&event_id(&[21, 1])));
    assert!(store.events.has_event(&event_id(&[22, 1])));
}

fn invite_secret(workspace_id: EventId, invite_event_id: EventId) -> InviteSecretEvent {
    InviteSecretEvent {
        bootstrap_secret: [7; 32],
        bootstrap_hash: [6; 32],
        workspace_id: Some(workspace_id),
        invite_event_id: Some(invite_event_id),
    }
}

#[test]
fn answer_holds_the_identity_events_of_the_workspace() {
    let local = keypair(60);
    let mut store = store_with(vec![local_endpoint_row(&local)]);
    let admin = record(&[TYPE_SIGNED, TYPE_ADMIN, 1]);
    let invite = record(&[TYPE_SIGNED, 4, 1]);
    let content = record(&[TYPE_SIGNED, 40, 1]);
    let invite_event_id = event_id(&invite.canonical_bytes);
    for event in [&admin, &invite, &content] {
        store.events.insert_event(event, EventStatus::Applied);
    }
    let reply = InviteBootstrapReply {
        sender_endpoint: [50; 32],
        bootstrap_hash: [6; 32],
        workspace_id: WORKSPACE,
        invite_event_id,
    };
    assert_eq!(
        invite_bootstrap_response(&store, &reply, &Vec::new()).err(),
        Some("unknown invite secret".to_string())
    );
    store
        .tables
        .insert_table_rows(&vec![invite_secret_row(&invite_secret(WORKSPACE, invite_event_id))]);
    assert_eq!(
        invite_secret_by_hash(&store, &[6; 32]).expect("secret").bootstrap_secret,
        [7; 32]
    );

    let batch = invite_bootstrap_response(&store, &reply, &Vec::new())
        .expect("answer")
        .expect("a batch");
    assert_eq!(batch.to_endpoint, [50; 32]);
    assert_eq!(batch.bootstrap_secret, [7; 32]);
    assert_eq!(batch.inners.len(), 2);
    assert!(!batch.inners.contains(&content.canonical_bytes));

    let exclude = vec![event_id(&admin.canonical_bytes)];
    assert_eq!(
        workspace_identity_bootstrap_event_bytes(&store, &WORKSPACE, &exclude),
        Ok(vec![invite.canonical_bytes.clone()])
    );
    let other = InviteBootstrapReply { workspace_id: [2; 32], ..reply };
    assert_eq!(
        invite_bootstrap_response(&store, &other, &Vec::new()).err(),
        Some("invite bootstrap reply key is not scoped to envelope invite".to_string())
    );
}

#[test]
fn inbound_exchange_is_admitted_and_answered() {
    let local = keypair(60);
    let mut store = store_with(vec![local_endpoint_row(&local)]);
    let admin = record(&[TYPE_SIGNED, TYPE_ADMIN, 1]);
    let invite = record(&[TYPE_SIGNED, 4, 1]);
    let invite_event_id = event_id(&invite.canonical_bytes);
    store.events.insert_event(&admin, EventStatus::Applied);
    store.events.insert_event(&invite, EventStatus::Applied);
    store
        .tables
        .insert_table_rows(&vec![invite_secret_row(&invite_secret(WORKSPACE, invite_event_id))]);
    let incoming = vec![TYPE_SIGNED, 6, 1];
    let recovered = vec![Recovered {
        canonical_bytes: incoming.clone(),
        provenance: TransitProvenance {
            origin: ADDR.to_vec(),
            local_endpoint: local.endpoint,
            sender_endpoint: [50; 32],
            remember_route: false,
            unwrapped_with: TransitUnwrap::InviteBootstrap {
                bootstrap_hash: [6; 32],
                workspace_id: WORKSPACE,
                invite_event_id,
            },
        },
    }];
    assert!(invite_bootstrap_reply(&store, &recovered).is_some());
    assert!(
        invite_bootstrap_reply(&Store::new(), &recovered).is_none(),
        "an answer needs the invite"
    );

    let exchange = process_inbound(&mut store, &Modules, &recovered).expect("exchange");
    assert_eq!(exchange.received_events, 1);
    assert!(store.events.has_event(&event_id(&incoming)));
    let batch = exchange.reply.expect("an answer");
    assert!(!batch.inners.contains(&incoming), "what just came is not sent back");
    assert_eq!(batch.inners.len(), 2);
}

#[test]
fn first_route_to_an_endpoint_wins() {
    let local = keypair(60);
    let request_bytes = request(&keypair(50), [8; 32], Some(b"127.0.0.1:43000"));
    let id = connection_id(&event_id(&request_bytes), &local.endpoint);
    let mut expected = b"connection-id:".to_vec();
    expected.extend_from_slice(&event_id(&request_bytes));
    expected.extend_from_slice(&local.endpoint);
    assert_eq!(id, *blake3::hash(&expected).as_bytes());

    let mut store = store_with(vec![local_endpoint_row(&local)]);
    remember_advertised_listener(&mut store, &request_bytes).expect("listener");
    assert_eq!(store.tables.table_row_count(TableName::TransportTargets), 0);

    store.tables.insert_table_rows(&vec![connection_row(&id, &[50; 32])]);
    assert_eq!(endpoint_has_routed_connection(&store, &[50; 32]), Ok(false));
    remember_advertised_listener(&mut store, &request_bytes).expect("listener");
    assert_eq!(
        store.tables.table_row(TableName::TransportTargets, &id),
        Some(b"127.0.0.1:43000".to_vec())
    );
    assert_eq!(endpoint_has_routed_connection(&store, &[50; 32]), Ok(true));

    let again = request(&keypair(50), [9; 32], Some(b"127.0.0.1:44000"));
    let other = connection_id(&event_id(&again), &local.endpoint);
    store.tables.insert_table_rows(&vec![connection_row(&other, &[50; 32])]);
    remember_advertised_listener(&mut store, &again).expect("listener");
    assert_eq!(store.tables.table_row(TableName::TransportTargets, &other), None);
}

#[test]
fn connection_rows_read_back_what_was_written() {
    let mut store = store_with(vec![
        connection_row(&[1; 32], &[9; 32]),
        transport_target_row(&[2; 32], ADDR),
        transport_target_row(&[1; 32], b"127.0.0.1:1"),
        bootstrap_workspace_row(&[1; 32], &WORKSPACE),
        request_connection_row(&[5; 32], &[1; 32]),
        connection_event_row(&[6; 32], b"event"),
    ]);
    assert_eq!(remote_endpoint(&store, &[1; 32]), Ok([9; 32]));
    assert_eq!(remote_endpoint(&store, &[2; 32]), Err("unknown connection".to_string()));
    assert_eq!(bootstrap_workspace_id(&store, &[1; 32]), Ok(Some(WORKSPACE)));
    assert_eq!(bootstrap_workspace_id(&store, &[2; 32]), Ok(None));
    assert_eq!(connection_id_for_request(&store, &[5; 32]), Ok(Some([1; 32])));
    assert_eq!(connection_event_bytes(&store, &[6; 32]), Ok(b"event".to_vec()));
    assert_eq!(
        connection_event_bytes(&store, &[7; 32]),
        Err("unknown connection event".to_string())
    );
    let listed: Vec<(EventId, Vec<u8>)> =
        routes(&store).expect("routes").into_iter().map(|r| (r.id, r.addr)).collect();
    assert_eq!(
        listed,
        vec![([1; 32], b"127.0.0.1:1".to_vec()), ([2; 32], ADDR.to_vec())]
    );
    remember_connection_route(&mut store, &[2; 32], b"127.0.0.1:2");
    assert_eq!(
        store.tables.table_row(TableName::TransportTargets, &[2; 32]),
        Some(ADDR.to_vec()),
        "a route that is known stays"
    );
    remember_connection_route(&mut store, &[3; 32], b"127.0.0.1:3");
    assert_eq!(
        store.tables.table_row(TableName::TransportTargets, &[3; 32]),
        Some(b"127.0.0.1:3".to_vec())
    );
    store.tables.insert_table_rows(&vec![TableRow {
        table: TableName::TransportTargets,
        key: vec![1, 2, 3],
        value: Vec::new(),
    }]);
    assert_eq!(routes(&store).err(), Some("connection id must be 32 bytes".to_string()));
}

#[test]
fn endpoint_rows_read_back_what_was_written() {
    let local = keypair(60);
    assert_eq!(
        local_endpoint(&Store::new()).err(),
        Some("local endpoint is missing".to_string())
    );
    let membership = EndpointMembershipRow {
        endpoint_id: [60; 32],
        workspace_id: WORKSPACE,
        endpoint_shared_id: [5; 32],
        signing_public_key: [62; 32],
        endpoint_role: EndpointRole::InviteServer,
    };
    let other = EndpointMembershipRow { endpoint_id: [50; 32], ..membership };
    let elsewhere = EndpointMembershipRow { workspace_id: [2; 32], ..membership };
    let store = store_with(vec![
        local_endpoint_row(&local),
        endpoint_membership_row(&membership),
        endpoint_membership_row(&other),
        endpoint_membership_row(&elsewhere),
    ]);
    let read = local_endpoint(&store).expect("local endpoint");
    assert_eq!(read.endpoint, local.endpoint);
    assert_eq!(read.signing_secret, local.signing_secret);
    let read = endpoint_membership(&store, &[60; 32], &WORKSPACE)
        .expect("membership")
        .expect("present");
    assert_eq!(read.endpoint_shared_id, [5; 32]);
    assert!(matches!(read.endpoint_role, EndpointRole::InviteServer));
    assert!(!read.endpoint_role.can_receive_key_wraps());
    assert!(EndpointRole::Device.can_receive_key_wraps());
    assert_eq!(mutual_workspace_ids(&store, &[60; 32], &[50; 32]), vec![WORKSPACE]);
}

#[test]
fn handshake_events_read_back_what_was_written() {
    let bytes = request(&keypair(50), [8; 32], Some(ADDR));
    let read = decode_request(&bytes).expect("request");
    assert_eq!(read.from_endpoint, [50; 32]);
    assert_eq!(read.invite_secret_event_id, [8; 32]);
    assert_eq!(read.from_listen_addr, Some(ADDR.to_vec()));
    assert!(decode_response(&bytes).is_err());

    let secret = invite_secret(WORKSPACE, [8; 32]);
    let read = decode_invite_secret(&encode_invite_secret(&secret)).expect("secret");
    assert_eq!(read.workspace_id, Some(WORKSPACE));
    assert_eq!(read.invite_event_id, Some([8; 32]));
    assert_eq!(read.bootstrap_secret, [7; 32]);

    let ephemeral = EphemeralSecretEvent { ephemeral_private_key: [3; 32] };
    let bytes = encode_ephemeral_secret(&ephemeral);
    assert_eq!(
        decode_ephemeral_secret(&bytes).expect("ephemeral").ephemeral_private_key,
        [3; 32]
    );
    assert!(decode_ephemeral_secret(&bytes[1..]).is_err());
}

#[test]
fn queue_keys_read_back_what_was_written() {
    let row = schema::transit_out_row([1; 32], [2; 32]);
    let key = schema::decode_transit_out_key(&row.key).expect("key");
    assert_eq!(key.connection_id, [1; 32]);
    assert_eq!(key.event_id, [2; 32]);
    assert_eq!(key.to_bytes(), row.key);
    assert!(row.key.starts_with(&schema::transit_out_prefix([1; 32])));
    assert!(schema::decode_transit_out_key(&row.key[1..]).is_err());

    let row = schema::sync_in_event_row([1; 32], [2; 32], b"bytes".to_vec());
    assert!(row.key.starts_with(&schema::sync_in_event_prefix([1; 32])));
    let event = schema::decode_sync_in_event(row.key.clone(), row.value).expect("event");
    assert_eq!(event.connection_id, [1; 32]);
    assert_eq!(event.event_id, [2; 32]);
    assert_eq!(event.event_bytes, b"bytes".to_vec());
    assert_eq!(event.key(), row.key);

    let mut store = Store::new();
    for connection in [[1; 32], [5; 32]] {
        let row = schema::sync_in_event_row(connection, [2; 32], Vec::new());
        store.tables.insert_table_rows(&vec![row]);
    }
    assert_eq!(schema::claim_sync_in_events(&store, 9).expect("all").len(), 2);
    let one = schema::claim_sync_in_events_for_connection(&store, [5; 32], 9).expect("one");
    assert_eq!(one.len(), 1);
    assert_eq!(one[0].connection_id, [5; 32]);
}

// Invariant: transit out rows are memory restart work.
#[test]
fn transit_out_rows_are_memory_restart_work() {
    let row = schema::transit_out_row([1; 32], [2; 32]);
    let key = row.key.clone();
    {
        let store = store_with(vec![row]);
        assert_eq!(store.tables.table_row_count(schema::TRANSIT_OUT), 1);
        assert!(store.tables.has_row(schema::TRANSIT_OUT, &key));
    }

    let store = Store::new();
    assert_eq!(store.tables.table_row_count(schema::TRANSIT_OUT), 0);
    assert!(!store.tables.has_row(schema::TRANSIT_OUT, &key));
}

#[test]
fn batches_are_filled_before_the_next_one_starts() {
    let third = TRANSIT_TARGET_PLAINTEXT_BYTES / 3 - 4;
    let batches = batch_transit_out_items((1..=7).map(|number| item(number, third)).collect());
    let sizes: Vec<usize> = batches.iter().map(|batch| batch.len()).collect();
    assert_eq!(sizes, vec![3, 3, 1]);
    for (batch, next) in batches.iter().zip(batches.iter().skip(1)) {
        let bytes: usize = batch.iter().map(|item| 4 + item.event_bytes.len()).sum();
        assert!(bytes <= TRANSIT_TARGET_PLAINTEXT_BYTES);
        assert!(bytes + 4 + next[0].event_bytes.len() > TRANSIT_TARGET_PLAINTEXT_BYTES);
    }
}

#[test]
fn address_that_is_no_text_is_refused() {
    let store = store_with(vec![
        pending_connection_attempt_row(&[4; 32], &[0x31, 0xfe]),
        transport_target_row(&[3; 32], &[0xe2, 0x82]),
    ]);
    let err = pending_connection_attempts(&store).expect_err("attempt");
    assert!(err.starts_with("pending connection addr is not utf8: "), "{err}");
    assert!(err.ends_with("invalid utf-8 sequence of 1 bytes from index 1"), "{err}");
    let err = routes(&store).expect_err("route");
    assert!(err.starts_with("transport target is not utf8: "), "{err}");
    assert_eq!(
        connection_ids_with_routes(&store),
        Ok(vec![[3; 32]]),
        "who has a route is told without its address"
    );
}

#[test]
fn route_of_a_request_is_kept_where_a_listener_runs() {
    let addr = b"127.0.0.1:7000".to_vec();
    assert_eq!(route_to_keep(true, [9; 32], addr.clone()), Some(([9; 32], addr.clone())));
    assert_eq!(route_to_keep(false, [9; 32], addr), None);
}

#[test]
fn carried_events_are_counted_over_all_frames() {
    let key = vec![1; 64];
    assert_eq!(carried_events(&Vec::new()), 0);
    assert_eq!(carried_events(&vec![vec![key.clone(), key.clone()], Vec::new(), vec![key]]), 3);
}
