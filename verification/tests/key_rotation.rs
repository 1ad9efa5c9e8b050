use topo_workers::bytes::EventId;
use topo_workers::content::{ContentStore, MessageTombstoneRow};
use topo_workers::encryption;
use topo_workers::encryption::{Output, Work};
use topo_workers::endpoints::{
    endpoint_membership_row, local_endpoint_row, EndpointKeypair, EndpointMembershipRow,
    EndpointRole,
};
use topo_workers::events;
use topo_workers::events::{AdmitRecords, EventRegistry, EventWithContext, ProjectionOutput};
use topo_workers::hash::event_id;
use topo_workers::history_store::HistoryStore;
use topo_workers::key_rotation::{
    active_local_recipient_keys, RetiredRecipientKey, RotateRecipientKeyReport, RotationEvents,
};
use topo_workers::keys::{
    key_wrap_key, KeyStore, KeyWrapRow, LocalRecipientKeyRow, RecipientKeyRow,
};
use topo_workers::store::Store;
use topo_workers::table::Table;
use topo_workers::types::{EventRecord, EventScope, EventStatus};

const WORKSPACE: EventId = [1; 32];
const FRONTIER: EventId = [4; 32];
const SHARED_ID: EventId = [11; 32];
const NEW_KEY: EventId = [22; 32];

/// A registry whose events may name one event that they need, behind a `>`. One that begins with
/// a `!` cannot be projected.
struct Modules;

fn record(canonical_bytes: Vec<u8>) -> EventRecord {
    let mut dependencies = Vec::new();
    if canonical_bytes.first() == Some(&b'>') {
        let mut dependency = [0; 32];
        dependency.copy_from_slice(&canonical_bytes[1..33]);
        dependencies.push(dependency);
    }
    EventRecord {
        timestamp: 1,
        body_len: canonical_bytes.len(),
        canonical_bytes,
        dependencies,
        workspace_id: Some(WORKSPACE),
        scope: EventScope::Local,
    }
}

impl EventRegistry for Modules {
    fn record_from_bytes(&self, bytes: Vec<u8>) -> Result<EventRecord, String> {
        Ok(record(bytes))
    }

    fn project_record(
        &self,
        _store: &Store,
        event: &EventWithContext<'_>,
    ) -> Result<ProjectionOutput, String> {
        if event.record.canonical_bytes.first() == Some(&b'!') {
            return Err("no projection".to_string());
        }
        Ok(ProjectionOutput::default())
    }
}

struct World {
    keys: KeyStore,
    history: HistoryStore,
    store: Store,
    messages: Table<MessageTombstoneRow>,
}

impl World {
    fn new(role: EndpointRole) -> World {
        let mut store = Store::new();
        store.tables.insert_table_rows(&vec![
            local_endpoint_row(&EndpointKeypair {
                endpoint: [5; 32],
                secret: [6; 32],
                signing_public_key: [7; 32],
                signing_secret: [8; 32],
            }),
            endpoint_membership_row(&EndpointMembershipRow {
                endpoint_id: [5; 32],
                workspace_id: WORKSPACE,
                endpoint_shared_id: SHARED_ID,
                signing_public_key: [7; 32],
                endpoint_role: role,
            }),
        ]);
        World {
            keys: KeyStore::new(),
            history: HistoryStore::new(),
            store,
            messages: ContentStore::new().message_tombstones,
        }
    }

    fn rotate(&mut self, rotation: &RotationEvents) -> Result<RotateRecipientKeyReport, String> {
        let output = encryption::run(
            &mut self.keys,
            &mut self.history,
            &mut self.store,
            &mut self.messages,
            &Modules,
            Work::RotateRecipientKey { workspace_id: WORKSPACE, rotation },
        )?;
        match output {
            Output::RotatedRecipientKey(report) => Ok(report),
            _ => panic!("unexpected output"),
        }
    }

    fn active(&self) -> Vec<RetiredRecipientKey> {
        active_local_recipient_keys(&self.keys, &WORKSPACE, &SHARED_ID)
    }
}

/// The parts of a rotation, made from the bytes of its events.
fn rotation(local: &[u8], published: &[u8], tombstones: &[&[u8]]) -> RotationEvents {
    RotationEvents {
        local_recipient: LocalRecipientKeyRow {
            local_recipient_key_id: event_id(local),
            workspace_id: WORKSPACE,
            recipient_key: NEW_KEY,
            recipient_secret: [23; 32],
        },
        local_record: record(local.to_vec()),
        recipient: RecipientKeyRow {
            recipient_key_id: event_id(published),
            workspace_id: WORKSPACE,
            endpoint_shared_id: SHARED_ID,
            recipient_key: NEW_KEY,
        },
        recipient_record: record(published.to_vec()),
        tombstone_records: tombstones.iter().map(|bytes| record(bytes.to_vec())).collect(),
    }
}

/// A published key of this device, with its events and a queued wrap made for it.
fn seed_active_key(world: &mut World) -> (RetiredRecipientKey, KeyWrapRow) {
    let (local, published, wrapped) = (b"old local", b"old published", b"old wrap");
    for bytes in [&local[..], &published[..], &wrapped[..]] {
        world.store.events.insert_event(&record(bytes.to_vec()), EventStatus::Applied);
    }
    let key = RetiredRecipientKey {
        recipient_key_id: event_id(published),
        local_recipient_key_id: event_id(local),
    };
    world.keys.insert_local_recipient_key(LocalRecipientKeyRow {
        local_recipient_key_id: key.local_recipient_key_id,
        workspace_id: WORKSPACE,
        recipient_key: [32; 32],
        recipient_secret: [33; 32],
    });
    world.keys.insert_recipient_key(RecipientKeyRow {
        recipient_key_id: key.recipient_key_id,
        workspace_id: WORKSPACE,
        endpoint_shared_id: SHARED_ID,
        recipient_key: [32; 32],
    });
    let wrap = KeyWrapRow {
        key_wrap_id: event_id(wrapped),
        signer_endpoint_shared_id: [34; 32],
        workspace_id: WORKSPACE,
        created_at_ms: 3,
        removal_frontier_id: FRONTIER,
        local_key_secret_id: [35; 32],
        recipient_key_id: key.recipient_key_id,
        sender_wrap_public_key: [36; 32],
        nonce: [37; 24],
        ciphertext: [38; 48],
    };
    world.keys.insert_key_wrap(wrap);
    (key, wrap)
}

#[test]
fn rotation_replaces_the_active_key_and_drops_its_material() {
    let mut world = World::new(EndpointRole::Device);
    let (old, wrap) = seed_active_key(&mut world);
    assert_eq!(world.active(), vec![old]);

    let rotation = rotation(b"new local", b"new published", &[b"old tombstone"]);
    let report = world.rotate(&rotation).expect("rotate");
    assert_eq!(
        report,
        RotateRecipientKeyReport {
            old_active_recipient_keys: 1,
            tombstoned_recipient_keys: 1,
            local_recipient_key_id: Some(event_id(b"new local")),
            recipient_key_id: Some(event_id(b"new published")),
            admitted_events: 3,
        }
    );
    assert_eq!(
        world.active(),
        vec![RetiredRecipientKey {
            recipient_key_id: event_id(b"new published"),
            local_recipient_key_id: event_id(b"new local"),
        }]
    );
    let key = key_wrap_key(&WORKSPACE, &FRONTIER, &old.recipient_key_id);
    assert!(!world.keys.wraps.contains(&key));
    assert_eq!(world.keys.pending.len(), 0);
    for id in [old.recipient_key_id, old.local_recipient_key_id, wrap.key_wrap_id] {
        assert!(!world.store.events.has_event(&id));
    }
    for bytes in [&b"new local"[..], &b"new published"[..], &b"old tombstone"[..]] {
        assert_eq!(
            world.store.events.event_status(&event_id(bytes)),
            Some(EventStatus::Applied)
        );
    }
}

#[test]
fn second_rotation_retires_what_the_first_one_published() {
    let mut world = World::new(EndpointRole::Device);
    let first = world.rotate(&rotation(b"local 1", b"published 1", &[])).expect("rotate");
    assert_eq!((first.old_active_recipient_keys, first.admitted_events), (0, 2));
    let second = world
        .rotate(&rotation(b"local 2", b"published 2", &[b"tombstone of 1"]))
        .expect("rotate");
    assert_eq!((second.old_active_recipient_keys, second.tombstoned_recipient_keys), (1, 1));
    assert_eq!(world.active()[0].recipient_key_id, event_id(b"published 2"));
    assert_eq!(world.active().len(), 1);
}

#[test]
fn rotation_rows_wait_for_their_blocked_events() {
    let mut world = World::new(EndpointRole::Device);
    let mut published = vec![b'>'];
    published.extend_from_slice(&event_id(b"membership"));
    let report = world.rotate(&rotation(b"new local", &published, &[])).expect("rotate");
    assert_eq!(report.admitted_events, 2);
    assert_eq!(
        world.store.events.event_status(&event_id(&published)),
        Some(EventStatus::Blocked)
    );
    assert_eq!(world.keys.locals.len(), 1, "the event of the local key is applied");
    assert_eq!(world.keys.recipients.len(), 0, "the event of the published key is not");
    assert_eq!(world.active(), Vec::new());
}

#[test]
fn rotation_breaks_off_where_an_event_cannot_be_applied() {
    let mut world = World::new(EndpointRole::Device);
    let err = world
        .rotate(&rotation(b"new local", b"!published", &[]))
        .expect_err("the published key cannot be projected");
    assert!(err.starts_with("admit rotated recipient key: "), "{err}");
    assert_eq!(world.keys.locals.len(), 1);
    assert_eq!(world.keys.recipients.len(), 0);

    let mut world = World::new(EndpointRole::Device);
    let err = world
        .rotate(&rotation(b"!local", b"published", &[]))
        .expect_err("the local key cannot be projected");
    assert!(err.starts_with("admit rotated local recipient key: "), "{err}");
    assert_eq!(world.keys.locals.len(), 0);

    let mut world = World::new(EndpointRole::Device);
    let (old, _) = seed_active_key(&mut world);
    let err = world
        .rotate(&rotation(b"new local", b"published", &[b"!tombstone"]))
        .expect_err("the tombstone cannot be projected");
    assert!(err.starts_with("admit recipient key tombstone: "), "{err}");
    assert!(world.store.events.has_event(&old.recipient_key_id), "the old key stays");
}

#[test]
fn rotation_is_refused_where_its_parts_do_not_belong_together() {
    let fitting = || rotation(b"new local", b"new published", &[]);
    let mut misfits = vec![fitting(), fitting(), fitting(), fitting(), fitting(), fitting()];
    misfits[0].recipient.recipient_key = [99; 32];
    misfits[1].recipient.workspace_id = [99; 32];
    misfits[2].local_recipient.workspace_id = [99; 32];
    misfits[3].recipient.endpoint_shared_id = [99; 32];
    misfits[4].recipient.recipient_key_id = [99; 32];
    misfits[5].local_recipient.local_recipient_key_id = [99; 32];
    for misfit in &misfits {
        let mut world = World::new(EndpointRole::Device);
        let err = world.rotate(misfit).expect_err("refused");
        assert_eq!(err, "rotation events do not belong together");
        assert_eq!(world.keys.locals.len(), 0);
        assert!(!world.store.events.has_event(&event_id(b"new local")));
    }

    let mut world = World::new(EndpointRole::Device);
    seed_active_key(&mut world);
    let err = world.rotate(&fitting()).expect_err("a tombstone is missing");
    assert_eq!(err, "rotation needs one tombstone for each active recipient key");
}

#[test]
fn rotation_needs_a_membership_that_may_receive_keys() {
    let fitting = rotation(b"new local", b"new published", &[]);
    let mut server = World::new(EndpointRole::InviteServer);
    let err = server.rotate(&fitting).expect_err("refused");
    assert_eq!(err, "local endpoint role cannot receive key wraps");
    let mut world = World::new(EndpointRole::Device);
    let err = encryption::run(
        &mut world.keys,
        &mut world.history,
        &mut world.store,
        &mut world.messages,
        &Modules,
        Work::RotateRecipientKey { workspace_id: [2; 32], rotation: &fitting },
    )
    .expect_err("refused");
    assert_eq!(err, "local endpoint is not joined to workspace");
}

#[test]
fn rotation_applies_what_waited_for_its_events() {
    let mut world = World::new(EndpointRole::Device);
    let mut waiting = vec![b'>'];
    waiting.extend_from_slice(&event_id(b"new local"));
    let id = event_id(&waiting);
    events::run(&mut world.store, &Modules, AdmitRecords { records: vec![record(waiting)] })
        .expect("admit");
    assert_eq!(world.store.events.event_status(&id), Some(EventStatus::Blocked));
    world.rotate(&rotation(b"new local", b"new published", &[])).expect("rotate");
    assert_eq!(world.store.events.event_status(&id), Some(EventStatus::Applied));
}
