use topo_workers::bytes::EventId;
use topo_workers::content::{message_key, ContentStore, MessageHead, MessageRow, SealedMessageRow};
use topo_workers::content_events::{encode_message, message_event_id_in_minute, MessageEvent};
use topo_workers::disappearing_floor_dispatcher;
use topo_workers::disappearing_floor_dispatcher::DispatchReport;
use topo_workers::disappearing_minute_expiry;
use topo_workers::disappearing_minute_expiry::ExpiryReport;
use topo_workers::events;
use topo_workers::events::{AdmitRecords, EventRegistry, EventWithContext, ProjectionOutput};
use topo_workers::hash::event_id;
use topo_workers::history::{encode_key_secret, make_key_secret_row, make_leaf_coord, Frontier};
use topo_workers::history_store::HistoryStore;
use topo_workers::history_tree::derive_event_leaf;
use topo_workers::settings::{SettingRow, SettingsStore, WorkspaceRow, COVER_HORIZON_MINUTES};
use topo_workers::store::Store;
use topo_workers::types::{EventRecord, EventScope, EventStatus};

const WORKSPACE: EventId = [1; 32];
const AUTHOR: EventId = [2; 32];
const SIGNER: EventId = [3; 32];
const KEY_SECRET: EventId = [7; 32];
const UNIX_MINUTE_MS: u64 = 60_000;

/// A registry whose events hold the id of the one event that they need. One with a trailing `!`
/// cannot be projected.
struct Waiting;

impl EventRegistry for Waiting {
    fn record_from_bytes(&self, bytes: Vec<u8>) -> Result<EventRecord, String> {
        let mut dependency = [0; 32];
        dependency.copy_from_slice(&bytes[..32]);
        let mut record = record(bytes, EventScope::Local);
        record.dependencies = vec![dependency];
        Ok(record)
    }

    fn project_record(
        &self,
        _store: &Store,
        event: &EventWithContext<'_>,
    ) -> Result<ProjectionOutput, String> {
        if event.record.canonical_bytes.last() == Some(&b'!') {
            return Err("no projection".to_string());
        }
        Ok(ProjectionOutput::default())
    }
}

struct World {
    history: HistoryStore,
    store: Store,
    content: ContentStore,
    settings: SettingsStore,
}

impl World {
    fn new() -> World {
        World {
            history: HistoryStore::new(),
            store: Store::new(),
            content: ContentStore::new(),
            settings: SettingsStore::new(),
        }
    }

    fn dispatch(&mut self, limit: usize) -> DispatchReport {
        disappearing_floor_dispatcher::run(
            &mut self.history,
            &mut self.store,
            &mut self.content,
            &mut self.settings,
            &Waiting,
            disappearing_floor_dispatcher::Work::Drain { limit },
        )
        .expect("dispatch")
    }

    fn expire(&mut self, limit: usize) -> Result<ExpiryReport, String> {
        disappearing_minute_expiry::run(
            &mut self.content,
            &mut self.history,
            &mut self.store,
            &self.settings,
            &Waiting,
            disappearing_minute_expiry::Work::Drain { limit },
        )
    }

    fn last_chopped(&self, frontier_id: EventId) -> Option<u64> {
        self.settings.last_chopped_floor(&WORKSPACE, &frontier_id)
    }
}

fn record(canonical_bytes: Vec<u8>, scope: EventScope) -> EventRecord {
    EventRecord {
        timestamp: 1,
        body_len: canonical_bytes.len(),
        canonical_bytes,
        dependencies: Vec::new(),
        workspace_id: Some(WORKSPACE),
        scope,
    }
}

fn seed_workspace_row(world: &mut World, disappearing_ttl_minutes: u32) {
    world.settings.insert_workspace(WorkspaceRow {
        workspace_id: WORKSPACE,
        disappearing_ttl_minutes,
    });
}

fn seed_local_key_secret(world: &mut World) -> EventId {
    let frontier_record = record(b"removal frontier".to_vec(), EventScope::Shared);
    let frontier_id = event_id(&frontier_record.canonical_bytes);
    let frontier = Frontier { workspace_id: WORKSPACE, removal_frontier_id: frontier_id };
    let secret_record = record(encode_key_secret(&frontier, &KEY_SECRET), EventScope::Local);
    world.store.events.insert_event(&frontier_record, EventStatus::Applied);
    world.store.events.insert_event(&secret_record, EventStatus::Applied);
    world.history.insert_root(make_key_secret_row(&frontier, &KEY_SECRET));
    world.settings.insert_frontier(&WORKSPACE, &frontier_id);
    frontier_id
}

fn seed_setting(
    world: &mut World,
    setting_event_id: EventId,
    ttl_minutes: u32,
    created_at_ms: u64,
    expires_at_or_before_minute: u64,
) {
    world.settings.insert_setting(SettingRow {
        workspace_id: WORKSPACE,
        setting_event_id,
        ttl_minutes,
        created_at_ms,
        expires_at_or_before_minute,
    });
}

#[test]
fn dispatcher_with_no_setting_uses_horizon_only() {
    let mut world = World::new();
    seed_workspace_row(&mut world, 0);
    let frontier_id = seed_local_key_secret(&mut world);

    let now_minute = COVER_HORIZON_MINUTES + 50;
    world.settings.set_logical_time(now_minute * UNIX_MINUTE_MS);

    let report = world.dispatch(usize::MAX);
    assert_eq!(report.chops_issued, 1);
    assert_eq!(report.frontiers_visited, 1);
    assert_eq!(
        world.last_chopped(frontier_id),
        Some(50),
        "no setting and a clock 50 minutes past the horizon give the floor 50"
    );
    assert!(
        report.subtree_tombstones_written + report.boundary_descend_tombstones_written > 0,
        "a floor other than zero must leave at least one tombstone"
    );
}

#[test]
fn dispatcher_chops_on_setting_tightening() {
    let mut world = World::new();
    seed_workspace_row(&mut world, 0);
    let frontier_id = seed_local_key_secret(&mut world);
    seed_setting(&mut world, [42; 32], 5, 12_000_000, 100);
    world.settings.set_logical_time(12_000_000);

    let report = world.dispatch(usize::MAX);
    assert_eq!(report.chops_issued, 1);
    assert_eq!(world.last_chopped(frontier_id), Some(100));
    let frontier = Frontier { workspace_id: WORKSPACE, removal_frontier_id: frontier_id };
    assert!(
        world.history.root(&frontier).is_none(),
        "the root of the frontier must be wiped by the chop"
    );
}

#[test]
fn dispatcher_chops_on_horizon_passing_setting() {
    let mut world = World::new();
    seed_workspace_row(&mut world, 0);
    let frontier_id = seed_local_key_secret(&mut world);
    seed_setting(&mut world, [42; 32], 5, 12_000_000, 50);

    let now_minute = COVER_HORIZON_MINUTES + 1000;
    world.settings.set_logical_time(now_minute * UNIX_MINUTE_MS);

    let report = world.dispatch(usize::MAX);
    assert_eq!(report.chops_issued, 1);
    assert_eq!(
        world.last_chopped(frontier_id),
        Some(1000),
        "the horizon (1000) is past the setting (50), so the floor is 1000"
    );
}

#[test]
fn dispatcher_is_idempotent() {
    let mut world = World::new();
    seed_workspace_row(&mut world, 0);
    let frontier_id = seed_local_key_secret(&mut world);
    seed_setting(&mut world, [42; 32], 5, 12_000_000, 100);
    world.settings.set_logical_time(12_000_000);

    let first = world.dispatch(usize::MAX);
    assert_eq!(first.chops_issued, 1);
    let pre_tombstones = world.history.list_tombstones_for_workspace(&WORKSPACE).len();

    let second = world.dispatch(usize::MAX);
    assert_eq!(second.chops_issued, 0, "second tick must be a no-op");
    assert_eq!(second.frontiers_visited, 1);

    let post_tombstones = world.history.list_tombstones_for_workspace(&WORKSPACE).len();
    assert_eq!(
        pre_tombstones, post_tombstones,
        "no tombstones may be added on the no-op second tick"
    );
    assert_eq!(world.last_chopped(frontier_id), Some(100));
}

#[test]
fn dispatcher_progresses_floor_monotonically() {
    let mut world = World::new();
    seed_workspace_row(&mut world, 0);
    let frontier_id = seed_local_key_secret(&mut world);

    let mut prev_floor: u64 = 0;
    for delta in [10u64, 25, 100] {
        let now_minute = COVER_HORIZON_MINUTES + prev_floor + delta;
        world.settings.set_logical_time(now_minute * UNIX_MINUTE_MS);

        let report = world.dispatch(usize::MAX);
        assert_eq!(report.chops_issued, 1, "advancing clock must chop");

        let new_last = world.last_chopped(frontier_id).expect("row exists after chop");
        assert!(
            new_last > prev_floor,
            "tick must advance the last floor strictly (prev={prev_floor}, new={new_last})"
        );
        prev_floor = new_last;
    }
}

#[test]
fn dispatcher_with_unset_clock_is_a_noop() {
    let mut world = World::new();
    seed_workspace_row(&mut world, 0);
    let frontier_id = seed_local_key_secret(&mut world);
    seed_setting(&mut world, [42; 32], 5, 12_000_000, 100);

    let report = world.dispatch(usize::MAX);
    assert_eq!(report.chops_issued, 0);
    assert_eq!(report.frontiers_visited, 0);
    assert_eq!(world.last_chopped(frontier_id), None, "no chop, so no last floor");
}

#[test]
fn dispatcher_stops_at_its_limit() {
    let mut world = World::new();
    seed_workspace_row(&mut world, 0);
    let frontier_id = seed_local_key_secret(&mut world);
    world.settings.set_logical_time((COVER_HORIZON_MINUTES + 50) * UNIX_MINUTE_MS);

    let report = world.dispatch(0);
    assert_eq!(report.chops_issued, 0);
    assert_eq!(world.last_chopped(frontier_id), None);
}

fn seed_message(
    world: &mut World,
    frontier_id: EventId,
    created_at_ms: u64,
    expires_at_minute: u64,
) -> EventId {
    let event = MessageEvent {
        workspace_id: WORKSPACE,
        author_user_id: AUTHOR,
        removal_frontier_id: frontier_id,
        local_history_node_secret_id: [42; 32],
        created_at_ms,
    };
    let message = record(encode_message(&event, b"sealed"), EventScope::Shared);
    let message_id = event_id(&message.canonical_bytes);
    world.store.events.insert_event(&message, EventStatus::Applied);
    world.content.sealed_messages.insert(
        message_key(&WORKSPACE, &message_id),
        SealedMessageRow {
            head: MessageHead {
                workspace_id: WORKSPACE,
                message_id,
                signer_endpoint_shared_id: SIGNER,
                created_at_ms,
                author_user_id: AUTHOR,
                removal_frontier_id: frontier_id,
                local_key_secret_id: [42; 32],
            },
            expires_at_minute,
            nonce: [0; 24],
            ciphertext: b"sealed".to_vec(),
        },
    );
    message_id
}

#[test]
fn expired_message_is_gone() {
    let mut world = World::new();
    seed_workspace_row(&mut world, 5);
    let frontier_id = seed_local_key_secret(&mut world);
    let frontier = Frontier { workspace_id: WORKSPACE, removal_frontier_id: frontier_id };
    let created_at_ms = 10 * UNIX_MINUTE_MS;
    let coordinate =
        message_event_id_in_minute(&WORKSPACE, &AUTHOR, &frontier_id, created_at_ms);
    derive_event_leaf(
        &mut world.history,
        &mut world.store.events,
        frontier,
        created_at_ms,
        coordinate,
    )
    .expect("derive");
    let message_id = seed_message(&mut world, frontier_id, created_at_ms, 15);
    let row = world
        .content
        .sealed_messages
        .get(&message_key(&WORKSPACE, &message_id))
        .expect("sealed row");
    let head = row.head;
    world
        .content
        .messages
        .insert(message_key(&WORKSPACE, &message_id), MessageRow { head, text: b"gone".to_vec() });
    let kept = seed_message(&mut world, frontier_id, created_at_ms + 1, u64::MAX);

    world.settings.set_logical_time(15 * UNIX_MINUTE_MS);
    let early = world.expire(10).expect("expire");
    assert_eq!(early.deleted_message_rows, 0, "the last minute has not passed yet");

    world.settings.set_logical_time(16 * UNIX_MINUTE_MS);
    let report = world.expire(10).expect("expire");
    assert_eq!(report.deleted_message_rows, 1);
    assert!(report.purged_event_bytes > 0);
    assert_eq!(report.retired_message_leaves, 1);
    assert_eq!(report.cascaded_reaction_rows, 0);
    assert_eq!(report.cascaded_file_rows, 0);
    assert_eq!(report.cascaded_file_slice_rows, 0);
    assert!(!world.store.events.has_event(&message_id));
    assert!(world.content.message_tombstone_exists(&WORKSPACE, &message_id));
    assert!(world.history.node(&frontier, &make_leaf_coord(10, coordinate)).is_none());
    assert!(world.store.events.has_event(&kept), "the last minute never expires");
    assert!(!world.content.message_tombstone_exists(&WORKSPACE, &kept));

    let again = world.expire(10).expect("expire");
    assert_eq!(again.deleted_message_rows, 0);
}

#[test]
fn nothing_expires_without_a_clock_or_a_time_to_live() {
    let mut world = World::new();
    seed_workspace_row(&mut world, 5);
    let frontier_id = seed_local_key_secret(&mut world);
    let message_id = seed_message(&mut world, frontier_id, 10 * UNIX_MINUTE_MS, 15);
    let report = world.expire(10).expect("expire");
    assert_eq!(report.deleted_message_rows, 0);
    assert!(world.store.events.has_event(&message_id));

    let mut keeping = World::new();
    seed_workspace_row(&mut keeping, 0);
    let frontier_id = seed_local_key_secret(&mut keeping);
    let message_id = seed_message(&mut keeping, frontier_id, 10 * UNIX_MINUTE_MS, 15);
    keeping.settings.set_logical_time(16 * UNIX_MINUTE_MS);
    let report = keeping.expire(10).expect("expire");
    assert_eq!(report.deleted_message_rows, 0);
    assert!(keeping.store.events.has_event(&message_id));
}

/// Two peers with one history and one clock; the second stores an event more.
fn two_peers() -> (World, World, EventId) {
    let mut worlds = (World::new(), World::new());
    let mut frontier_id = [0; 32];
    for world in [&mut worlds.0, &mut worlds.1] {
        seed_workspace_row(world, 5);
        frontier_id = seed_local_key_secret(world);
    }
    let more = record(b"only here".to_vec(), EventScope::Shared);
    worlds.1.store.events.insert_event(&more, EventStatus::Applied);
    (worlds.0, worlds.1, frontier_id)
}

#[test]
fn peers_chop_to_the_same_tombstones() {
    let (mut a, mut b, frontier_id) = two_peers();
    for world in [&mut a, &mut b] {
        seed_setting(world, [42; 32], 5, 12_000_000, 100);
        world.settings.set_logical_time(12_000_000);
        assert_eq!(world.dispatch(usize::MAX).chops_issued, 1);
    }
    assert_eq!(
        a.history.list_tombstones_for_workspace(&WORKSPACE),
        b.history.list_tombstones_for_workspace(&WORKSPACE)
    );
    let frontier = Frontier { workspace_id: WORKSPACE, removal_frontier_id: frontier_id };
    assert_eq!(a.history.list_for_frontier(&frontier), b.history.list_for_frontier(&frontier));
    assert_eq!(a.last_chopped(frontier_id), b.last_chopped(frontier_id));
}

#[test]
fn peers_expire_the_same_leaves_for_good() {
    let (mut a, mut b, frontier_id) = two_peers();
    let frontier = Frontier { workspace_id: WORKSPACE, removal_frontier_id: frontier_id };
    let created_at_ms = 10 * UNIX_MINUTE_MS;
    let coordinate = message_event_id_in_minute(&WORKSPACE, &AUTHOR, &frontier_id, created_at_ms);
    for world in [&mut a, &mut b] {
        derive_event_leaf(
            &mut world.history,
            &mut world.store.events,
            frontier,
            created_at_ms,
            coordinate,
        )
        .expect("derive");
        seed_message(world, frontier_id, created_at_ms, 15);
        world.settings.set_logical_time(16 * UNIX_MINUTE_MS);
        assert_eq!(world.expire(10).expect("expire").retired_message_leaves, 1);
        let err = derive_event_leaf(
            &mut world.history,
            &mut world.store.events,
            frontier,
            created_at_ms,
            coordinate,
        )
        .expect_err("the key of an expired message is gone");
        assert!(err.contains("no retained ancestor covers"), "{err}");
    }
    assert_eq!(a.history.list_for_frontier(&frontier), b.history.list_for_frontier(&frontier));
    assert_eq!(
        a.history.list_tombstones_for_workspace(&WORKSPACE),
        b.history.list_tombstones_for_workspace(&WORKSPACE)
    );
}

/// The ids of nodes that one world keeps and another did not store.
fn new_nodes(after: &World, before: &World, frontier_id: EventId) -> Vec<EventId> {
    let frontier = Frontier { workspace_id: WORKSPACE, removal_frontier_id: frontier_id };
    after
        .history
        .list_for_frontier(&frontier)
        .iter()
        .map(|row| row.local_history_node_secret_id)
        .filter(|id| !before.store.events.has_event(id))
        .collect()
}

/// Admit an event that waits for a node.
fn admit_waiting(world: &mut World, node_id: EventId, rest: &[u8]) -> EventId {
    let mut bytes = node_id.to_vec();
    bytes.extend_from_slice(rest);
    let id = event_id(&bytes);
    let record = Waiting.record_from_bytes(bytes).expect("record");
    events::run(&mut world.store, &Waiting, AdmitRecords { records: vec![record] }).expect("admit");
    assert_eq!(world.store.events.event_status(&id), Some(EventStatus::Blocked));
    id
}

fn world_to_chop() -> (World, EventId) {
    let mut world = World::new();
    seed_workspace_row(&mut world, 5);
    let frontier_id = seed_local_key_secret(&mut world);
    seed_setting(&mut world, [42; 32], 5, 12_000_000, 100);
    world.settings.set_logical_time(12_000_000);
    (world, frontier_id)
}

#[test]
fn chop_applies_what_waited_for_its_nodes() {
    let (mut preview, frontier_id) = world_to_chop();
    preview.dispatch(usize::MAX);
    let (mut world, _) = world_to_chop();
    let node_id = new_nodes(&preview, &world, frontier_id)[0];
    let waiting_id = admit_waiting(&mut world, node_id, b"waits");
    assert_eq!(world.dispatch(usize::MAX).chops_issued, 1);
    assert_eq!(world.store.events.event_status(&waiting_id), Some(EventStatus::Applied));

    let (mut failing, _) = world_to_chop();
    admit_waiting(&mut failing, node_id, b"waits!");
    let err = disappearing_floor_dispatcher::run(
        &mut failing.history,
        &mut failing.store,
        &mut failing.content,
        &mut failing.settings,
        &Waiting,
        disappearing_floor_dispatcher::Work::Drain { limit: usize::MAX },
    )
    .expect_err("the projection fails");
    assert!(err.starts_with("dispatch chop: "), "{err}");
    assert!(err.contains("no projection"), "{err}");
}

fn world_to_expire() -> (World, EventId) {
    let mut world = World::new();
    seed_workspace_row(&mut world, 5);
    let frontier_id = seed_local_key_secret(&mut world);
    let created_at_ms = 10 * UNIX_MINUTE_MS;
    derive_event_leaf(
        &mut world.history,
        &mut world.store.events,
        Frontier { workspace_id: WORKSPACE, removal_frontier_id: frontier_id },
        created_at_ms,
        message_event_id_in_minute(&WORKSPACE, &AUTHOR, &frontier_id, created_at_ms),
    )
    .expect("derive");
    seed_message(&mut world, frontier_id, created_at_ms, 15);
    world.settings.set_logical_time(16 * UNIX_MINUTE_MS);
    (world, frontier_id)
}

#[test]
fn expiry_applies_what_waited_for_its_nodes() {
    let (mut preview, frontier_id) = world_to_expire();
    preview.expire(10).expect("expire");
    let (mut world, _) = world_to_expire();
    let node_id = new_nodes(&preview, &world, frontier_id)[0];
    let waiting_id = admit_waiting(&mut world, node_id, b"waits");
    assert_eq!(world.expire(10).expect("expire").retired_message_leaves, 1);
    assert_eq!(world.store.events.event_status(&waiting_id), Some(EventStatus::Applied));

    let (mut failing, _) = world_to_expire();
    admit_waiting(&mut failing, node_id, b"waits!");
    let err = failing.expire(10).expect_err("the projection fails");
    assert!(err.starts_with("retire expired-minute leaf: "), "{err}");
    assert!(err.contains("no projection"), "{err}");
}

#[test]
fn dispatch_leaves_each_frontier_at_the_later_floor() {
    let mut world = World::new();
    seed_workspace_row(&mut world, 0);
    let frontier_id = seed_local_key_secret(&mut world);
    let other = [0x77; 32];
    world.settings.insert_frontier(&WORKSPACE, &other);
    seed_setting(&mut world, [42; 32], 5, 12_000_000, 100);
    world.settings.set_logical_time((COVER_HORIZON_MINUTES + 60) * UNIX_MINUTE_MS);
    let first = world.dispatch(usize::MAX);
    assert_eq!((first.frontiers_visited, first.chops_issued), (2, 2));
    assert_eq!(world.last_chopped(frontier_id), Some(100));
    assert_eq!(world.last_chopped(other), Some(100));

    let third = [0x78; 32];
    world.settings.insert_frontier(&WORKSPACE, &third);
    let second = world.dispatch(usize::MAX);
    assert_eq!((second.frontiers_visited, second.chops_issued), (3, 1));
    assert_eq!(world.last_chopped(frontier_id), Some(100));
    assert_eq!(world.last_chopped(third), Some(100));
}
