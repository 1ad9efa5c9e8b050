use topo_workers::bytes::EventId;
use topo_workers::content::{ContentStore, MessageTombstoneRow};
use topo_workers::encryption::{run, Output, Work};
use topo_workers::events;
use topo_workers::events::{AdmitRecords, EventRegistry, EventWithContext, ProjectionOutput};
use topo_workers::hash::{domain_keyed_hash, event_id};
use topo_workers::history::{
    bit_at, encode_key_secret, make_key_secret_row, make_leaf_coord, make_time_coord,
    mask_prefix_to_depth, time_split_info, trie_split_info, Frontier, HistoryNodeRow,
    NodeTombstoneRow, TIME_TREE_BIT_DEPTH, TIME_TREE_ROOT_WIDTH, TRIE_LEAF_BIT_DEPTH,
};
use topo_workers::history_chop::ChopReport;
use topo_workers::history_store::HistoryStore;
use topo_workers::history_tree::{DeriveEventLeafReport, RetireDeletedEventLeafReport};
use topo_workers::keys::{
    key_wrap_key, KeyStore, KeyWrapRow, LocalRecipientKeyRow, PendingUnwrap, RecipientKeyRow,
};
use topo_workers::key_unwrap::wraps_to_open;
use topo_workers::store::Store;
use topo_workers::table::Table;
use topo_workers::types::{EventRecord, EventScope, EventStatus};

const WORKSPACE: EventId = [1; 32];
const KEY_SECRET: [u8; 32] = [7; 32];

struct NoModules;

impl EventRegistry for NoModules {
    fn record_from_bytes(&self, _bytes: Vec<u8>) -> Result<EventRecord, String> {
        Err("no modules".to_string())
    }

    fn project_record(
        &self,
        _store: &Store,
        _event: &EventWithContext<'_>,
    ) -> Result<ProjectionOutput, String> {
        Err("no modules".to_string())
    }
}

struct World {
    keys: KeyStore,
    history: HistoryStore,
    store: Store,
    messages: Table<MessageTombstoneRow>,
}

impl World {
    fn new() -> World {
        World {
            keys: KeyStore::new(),
            history: HistoryStore::new(),
            store: Store::new(),
            messages: ContentStore::new().message_tombstones,
        }
    }

    fn run(&mut self, work: Work<'_>) -> Result<Output, String> {
        run(
            &mut self.keys,
            &mut self.history,
            &mut self.store,
            &mut self.messages,
            &NoModules,
            work,
        )
    }

    fn derive(
        &mut self,
        removal_frontier_id: EventId,
        created_at_ms: u64,
        event_id_in_minute: EventId,
    ) -> Result<DeriveEventLeafReport, String> {
        match self.run(Work::DeriveEventLeaf {
            workspace_id: WORKSPACE,
            removal_frontier_id,
            created_at_ms,
            event_id_in_minute,
        })? {
            Output::DerivedEventLeaf(report) => Ok(report),
            _ => panic!("unexpected output"),
        }
    }

    fn retire(
        &mut self,
        removal_frontier_id: EventId,
        created_at_ms: u64,
        event_id_in_minute: EventId,
    ) -> RetireDeletedEventLeafReport {
        let output = self
            .run(Work::RetireDeletedEventLeaf {
                workspace_id: WORKSPACE,
                removal_frontier_id,
                created_at_ms,
                event_id_in_minute,
            })
            .expect("retire");
        match output {
            Output::RetiredDeletedEventLeaf(report) => report,
            _ => panic!("unexpected output"),
        }
    }

    fn chop(&mut self, removal_frontier_id: EventId, floor_minute: u64) -> ChopReport {
        let output = self
            .run(Work::ChopTimeTreePrefix {
                workspace_id: WORKSPACE,
                removal_frontier_id,
                floor_minute,
            })
            .expect("chop");
        match output {
            Output::ChoppedTimeTreePrefix(report) => report,
            _ => panic!("unexpected output"),
        }
    }

    fn rows(&self, removal_frontier_id: EventId) -> Vec<HistoryNodeRow> {
        self.history.list_for_frontier(&frontier(removal_frontier_id))
    }

    fn leaf(&self, removal_frontier_id: EventId, minute: u64, id: EventId) -> Option<HistoryNodeRow> {
        self.history
            .node(&frontier(removal_frontier_id), &make_leaf_coord(minute, id))
    }

    fn minute_node(&self, removal_frontier_id: EventId, minute: u64) -> Option<HistoryNodeRow> {
        self.history
            .node(&frontier(removal_frontier_id), &make_time_coord(minute, 1))
    }

    fn has_root(&self, removal_frontier_id: EventId) -> bool {
        self.history.root(&frontier(removal_frontier_id)).is_some()
    }

    fn tombstones(&self) -> Vec<NodeTombstoneRow> {
        self.history.list_tombstones_for_workspace(&WORKSPACE)
    }

    /// Retained rows and tombstones, written out one after the other.
    fn cover_summary(&self, removal_frontier_id: EventId) -> Vec<u8> {
        let rows = self.rows(removal_frontier_id);
        let tombstones = self.tombstones();
        let mut out = b"topo cover summary v4".to_vec();
        out.extend((rows.len() as u32).to_be_bytes());
        for row in &rows {
            out.extend(row.local_history_node_secret_id);
            out.extend(row.frontier.removal_frontier_id);
            out.extend(row.coord.range_start.to_be_bytes());
            out.extend(row.coord.range_width.to_be_bytes());
            out.extend(row.coord.bit_depth.to_be_bytes());
            out.extend(row.coord.event_id_prefix);
        }
        out.extend((tombstones.len() as u32).to_be_bytes());
        for row in &tombstones {
            out.extend(row.frontier.removal_frontier_id);
            out.extend(row.tombstone_node_id);
            out.extend(row.range_start.to_be_bytes());
            out.extend(row.range_width.to_be_bytes());
        }
        out
    }
}

const SUMMARY_ROW_LEN: usize = 32 + 32 + 8 + 8 + 2 + 32;
const SUMMARY_TOMBSTONE_LEN: usize = 32 + 32 + 8 + 8;

fn frontier(removal_frontier_id: EventId) -> Frontier {
    Frontier {
        workspace_id: WORKSPACE,
        removal_frontier_id,
    }
}

fn local_record(canonical_bytes: Vec<u8>) -> EventRecord {
    EventRecord {
        timestamp: 1,
        body_len: canonical_bytes.len(),
        canonical_bytes,
        dependencies: Vec::new(),
        workspace_id: Some(WORKSPACE),
        scope: EventScope::Local,
    }
}

fn seed_frontier(world: &mut World, frontier_bytes: &[u8]) -> EventId {
    let record = EventRecord {
        scope: EventScope::Shared,
        ..local_record(frontier_bytes.to_vec())
    };
    world.store.events.insert_event(&record, EventStatus::Applied);
    event_id(frontier_bytes)
}

/// A frontier with a stored root secret.
fn seed_local_key_secret(world: &mut World, frontier_bytes: &[u8]) -> (EventId, EventId) {
    let frontier_id = seed_frontier(world, frontier_bytes);
    let row = make_key_secret_row(&frontier(frontier_id), &KEY_SECRET);
    let record = local_record(encode_key_secret(&frontier(frontier_id), &KEY_SECRET));
    assert_eq!(event_id(&record.canonical_bytes), row.local_key_secret_id);
    world.store.events.insert_event(&record, EventStatus::Applied);
    assert!(world.history.insert_root(row));
    (frontier_id, row.local_key_secret_id)
}

fn is_leaf_row(row: &HistoryNodeRow) -> bool {
    row.coord.bit_depth == TRIE_LEAF_BIT_DEPTH
}

const TIME_SPLIT_DOMAIN: &[u8] = b"topo time split v1";
const TRIE_SPLIT_DOMAIN: &[u8] = b"topo trie split v1";

/// Walk from the secret of a covering row down to a leaf.
fn walk_descendant_to_leaf(
    start_secret: EventId,
    start_range_start: u64,
    start_range_width: u64,
    start_bit_depth: u16,
    start_event_id_prefix: EventId,
    target_minute: u64,
    target_coord: EventId,
) -> EventId {
    let mut current_secret = start_secret;
    let mut current_start = start_range_start;
    let mut current_width = start_range_width;
    while current_width > 1 {
        let half = current_width / 2;
        let mid = current_start + half;
        let (child_side, child_start) = if target_minute < mid {
            (0u8, current_start)
        } else {
            (1u8, mid)
        };
        let info = time_split_info(current_start, current_width, child_side, child_start, half);
        current_secret = domain_keyed_hash(&current_secret, TIME_SPLIT_DOMAIN, &info);
        current_start = child_start;
        current_width = half;
    }
    assert_eq!(current_start, target_minute);
    let (parent_bit_depth, parent_prefix) = if start_range_width == 1 {
        (start_bit_depth, start_event_id_prefix)
    } else {
        (0, [0u8; 32])
    };
    let leaf_side = bit_at(&target_coord, parent_bit_depth);
    let info = trie_split_info(
        parent_bit_depth,
        parent_prefix,
        leaf_side,
        TRIE_LEAF_BIT_DEPTH,
        target_coord,
    );
    domain_keyed_hash(&current_secret, TRIE_SPLIT_DOMAIN, &info)
}

#[test]
fn derive_key_secrets_drains_projected_pending_unwrap_queue() {
    let mut world = World::new();
    let frontier_id = seed_frontier(&mut world, b"removal frontier");
    let signer_endpoint_shared_id = [8; 32];
    let sender_local_secret = make_key_secret_row(&frontier(frontier_id), &KEY_SECRET);

    let local_recipient = LocalRecipientKeyRow {
        local_recipient_key_id: [21; 32],
        workspace_id: WORKSPACE,
        recipient_key: [22; 32],
        recipient_secret: [23; 32],
    };
    let recipient = RecipientKeyRow {
        recipient_key_id: [24; 32],
        workspace_id: WORKSPACE,
        endpoint_shared_id: signer_endpoint_shared_id,
        recipient_key: local_recipient.recipient_key,
    };
    let wrap = KeyWrapRow {
        key_wrap_id: [25; 32],
        signer_endpoint_shared_id,
        workspace_id: WORKSPACE,
        created_at_ms: 3,
        removal_frontier_id: frontier_id,
        local_key_secret_id: sender_local_secret.local_key_secret_id,
        recipient_key_id: recipient.recipient_key_id,
        sender_wrap_public_key: [26; 32],
        nonce: [27; 24],
        ciphertext: [28; 48],
    };
    assert!(world.keys.insert_local_recipient_key(local_recipient));
    assert!(world.keys.insert_recipient_key(recipient));
    world.keys.insert_key_wrap(wrap);
    assert_eq!(world.keys.pending.len(), 1);

    // The one queued wrap can be opened with the one local key.
    let to_open = wraps_to_open(&world.keys, &world.history, 16);
    assert_eq!(to_open.len(), 1);
    let mut opened: Table<Vec<u8>> = Table::new();
    opened.put(wrap.key_wrap_id.to_vec(), KEY_SECRET.to_vec());

    let output = world
        .run(Work::DeriveKeySecrets {
            batch_size: 16,
            opened: &opened,
        })
        .expect("derive key secret");
    let Output::DerivedKeySecrets(report) = output else {
        panic!("unexpected output");
    };
    assert_eq!(report.scanned_key_wraps, 1);
    assert_eq!(report.derived_key_secrets, 1);
    assert_eq!(report.failed_key_wraps, 0);
    assert_eq!(report.admitted_events, 1);

    let local = world
        .history
        .root(&frontier(frontier_id))
        .expect("local key secret row");
    assert_eq!(
        local.local_key_secret_id,
        sender_local_secret.local_key_secret_id
    );
    assert_eq!(local.key_secret, KEY_SECRET);
    assert_eq!(
        world.keys.pending.len(),
        0,
        "successful unwrap must consume its queue row"
    );

    let second = world
        .run(Work::DeriveKeySecrets {
            batch_size: 16,
            opened: &opened,
        })
        .expect("derive is idempotent after queue drain");
    let Output::DerivedKeySecrets(second) = second else {
        panic!("unexpected output");
    };
    assert_eq!(second.scanned_key_wraps, 0);
    assert_eq!(second.derived_key_secrets, 0);
}

#[test]
fn wrap_that_holds_another_secret_stays_queued() {
    let mut world = World::new();
    let frontier_id = seed_frontier(&mut world, b"removal frontier");
    let promised = make_key_secret_row(&frontier(frontier_id), &KEY_SECRET);
    world.keys.insert_local_recipient_key(LocalRecipientKeyRow {
        local_recipient_key_id: [21; 32],
        workspace_id: WORKSPACE,
        recipient_key: [22; 32],
        recipient_secret: [23; 32],
    });
    world.keys.insert_recipient_key(RecipientKeyRow {
        recipient_key_id: [24; 32],
        workspace_id: WORKSPACE,
        endpoint_shared_id: [8; 32],
        recipient_key: [22; 32],
    });
    let wrap = KeyWrapRow {
        key_wrap_id: [25; 32],
        signer_endpoint_shared_id: [8; 32],
        workspace_id: WORKSPACE,
        created_at_ms: 3,
        removal_frontier_id: frontier_id,
        local_key_secret_id: promised.local_key_secret_id,
        recipient_key_id: [24; 32],
        sender_wrap_public_key: [26; 32],
        nonce: [27; 24],
        ciphertext: [28; 48],
    };
    world.keys.insert_key_wrap(wrap);
    let mut opened: Table<Vec<u8>> = Table::new();
    opened.put(wrap.key_wrap_id.to_vec(), vec![8; 32]);

    let Ok(Output::DerivedKeySecrets(report)) = world.run(Work::DeriveKeySecrets {
        batch_size: 16,
        opened: &opened,
    }) else {
        panic!("unexpected output");
    };
    assert_eq!(report.failed_key_wraps, 1);
    assert_eq!(report.derived_key_secrets, 0);
    assert!(!world.has_root(frontier_id));
    assert_eq!(world.keys.pending.len(), 1);
    let key = key_wrap_key(&WORKSPACE, &frontier_id, &[24; 32]);
    let queued: Option<&PendingUnwrap> = world.keys.pending.get(&key);
    assert_eq!(queued.map(|p| p.key_wrap_id), Some([25; 32]));
}

#[test]
fn derive_event_leaf_is_idempotent_and_returns_leaf_node_secret() {
    let mut world = World::new();
    let (frontier_id, _) = seed_local_key_secret(&mut world, b"removal frontier");
    let event_id_in_minute = [99; 32];

    let first = world
        .derive(frontier_id, 17, event_id_in_minute)
        .expect("first derive");
    let leaf_id = first
        .local_history_node_secret_id
        .expect("first call must produce leaf id");
    assert!(first.leaf_node_secret.is_some());
    assert!(first.admitted_events >= 1);

    let second = world
        .derive(frontier_id, 17, event_id_in_minute)
        .expect("second derive");
    assert_eq!(second.local_history_node_secret_id, Some(leaf_id));
    assert_eq!(second.leaf_node_secret, first.leaf_node_secret);
    assert_eq!(second.admitted_events, 0, "second call must be idempotent");
}

#[test]
fn derive_event_leaf_refuses_the_zero_coordinate() {
    let mut world = World::new();
    let (frontier_id, _) = seed_local_key_secret(&mut world, b"removal frontier");
    let err = world
        .derive(frontier_id, 17, [0; 32])
        .expect_err("zero coordinate");
    assert_eq!(err, "derive_event_leaf requires non-zero event_id_in_minute");
}

#[test]
fn derive_event_leaf_reaches_same_secret_via_root_walk() {
    let mut world = World::new();
    let (frontier_id, _) = seed_local_key_secret(&mut world, b"removal frontier");
    let event_id_in_minute = [0xab; 32];
    let created_at_ms: u64 = 7 * 60_000;

    let report = world
        .derive(frontier_id, created_at_ms, event_id_in_minute)
        .expect("derive");
    let leaf_secret = report.leaf_node_secret.expect("leaf secret");

    // Replay the chain directly from the workspace key secret.
    let mut current_secret = KEY_SECRET;
    let mut current_start = 0u64;
    let mut current_width = TIME_TREE_ROOT_WIDTH;
    let target_minute = created_at_ms / 60_000;
    while current_width > 1 {
        let half = current_width / 2;
        let mid = current_start + half;
        let (child_side, child_start) = if target_minute < mid {
            (0u8, current_start)
        } else {
            (1u8, mid)
        };
        let info = time_split_info(current_start, current_width, child_side, child_start, half);
        current_secret = domain_keyed_hash(&current_secret, TIME_SPLIT_DOMAIN, &info);
        current_start = child_start;
        current_width = half;
    }
    let leaf_side = bit_at(&event_id_in_minute, 0);
    let info = trie_split_info(
        0,
        [0; 32],
        leaf_side,
        TRIE_LEAF_BIT_DEPTH,
        event_id_in_minute,
    );
    let recomputed = domain_keyed_hash(&current_secret, TRIE_SPLIT_DOMAIN, &info);
    assert_eq!(recomputed, leaf_secret);
}

#[test]
fn sparse_delete_materializes_log_n_internals_not_n_leaves() {
    let mut world = World::new();
    let (frontier_id, _) = seed_local_key_secret(&mut world, b"removal frontier");
    const N: usize = 16;
    let coords: Vec<EventId> = (0u8..N as u8).map(|byte| [byte ^ 0xa5; 32]).collect();
    for coord in &coords {
        world.derive(frontier_id, 60_000, *coord).expect("derive leaf");
    }
    let pre_rows = world.rows(frontier_id);
    assert_eq!(
        pre_rows.len(),
        N,
        "every fresh send admits exactly one leaf row"
    );
    for row in &pre_rows {
        assert!(is_leaf_row(row), "every pre-delete row must be a leaf");
    }

    let report = world.retire(frontier_id, 60_000, coords[0]);
    assert!(
        report.purged_event_bytes >= 1,
        "at minimum the leaf canonical bytes must be purged"
    );
    assert!(
        report.tombstones_written >= 1,
        "at minimum a leaf tombstone must be written"
    );

    let post_rows = world.rows(frontier_id);
    let leaf_count = post_rows.iter().filter(|row| is_leaf_row(row)).count();
    assert_eq!(
        leaf_count,
        N - 1,
        "exactly one leaf retired; surviving leaf rows persist",
    );
    let internal_row_count = post_rows.len() - leaf_count;
    let time_tree_sibling_bound = 64 + 4;
    let trie_sibling_bound = (N as f64).log2().ceil() as usize + 4;
    assert!(
        internal_row_count <= time_tree_sibling_bound + trie_sibling_bound,
        "internal sibling row count {internal_row_count} must be O(log range + log N), bound {}",
        time_tree_sibling_bound + trie_sibling_bound,
    );

    assert!(
        world.leaf(frontier_id, 60_000 / 60_000, coords[0]).is_none(),
        "deleted leaf row must be gone",
    );
    assert!(
        !world.has_root(frontier_id),
        "local_key_secret(F) row must be wiped after retire",
    );
}

#[test]
fn delete_wipes_minute_node_along_descend_path() {
    let mut world = World::new();
    let (frontier_id, _) = seed_local_key_secret(&mut world, b"removal frontier");
    let coord_a = [0xaa; 32];
    let coord_b = [0xbb; 32];
    for coord in [coord_a, coord_b] {
        world
            .derive(frontier_id, 100 * 60_000, coord)
            .expect("derive leaf");
    }
    world.retire(frontier_id, 100 * 60_000, coord_a);

    for adjacent in [99u64, 101u64] {
        assert!(
            world.minute_node(frontier_id, adjacent).is_none(),
            "minute_node at adjacent minute {adjacent} must NOT be materialized",
        );
    }
    assert!(
        world.minute_node(frontier_id, 100).is_none(),
        "minute_node at M=100 must be wiped after retire (descend-path FS)",
    );
    assert!(
        world.leaf(frontier_id, 100, coord_b).is_some(),
        "sibling leaf at coord_b must survive retire",
    );
}

#[test]
fn cover_summary_after_sparse_delete_is_logarithmic() {
    let mut world = World::new();
    let (frontier_id, _) = seed_local_key_secret(&mut world, b"removal frontier");
    const N: usize = 32;
    let coords: Vec<EventId> = (0u8..N as u8).map(|byte| [byte ^ 0x77; 32]).collect();
    for coord in &coords {
        world.derive(frontier_id, 60_000, *coord).expect("derive leaf");
    }
    world.retire(frontier_id, 60_000, coords[0]);

    let summary = world.cover_summary(frontier_id);
    let header_len = b"topo cover summary v4".len() + 4;
    let log_n = (N as f64).log2().ceil() as usize;
    let row_budget = (N - 1) + 2 * 64 + 4 + 2 * log_n + 4;
    let tombstone_budget = 64 + 4 + log_n + 4 + 1;
    let total_budget = header_len
        + 4
        + row_budget * SUMMARY_ROW_LEN
        + 4
        + tombstone_budget * SUMMARY_TOMBSTONE_LEN;
    assert!(
        summary.len() <= total_budget,
        "cover_summary length {} exceeds bound {}",
        summary.len(),
        total_budget,
    );

    let again = world.cover_summary(frontier_id);
    assert_eq!(summary, again);
}

#[test]
fn adversary_cannot_re_derive_deleted_leaf_from_unrelated_retained_rows() {
    let mut world = World::new();
    let (frontier_id, _) = seed_local_key_secret(&mut world, b"removal frontier");
    const N: usize = 8;
    let coords: Vec<EventId> = (0u8..N as u8).map(|byte| [byte ^ 0xa5; 32]).collect();
    let target_coord = coords[0];
    let target_created_at_ms: u64 = 60_000;
    let target_minute = target_created_at_ms / 60_000;

    let mut target_secret_snapshot: Option<EventId> = None;
    for (idx, coord) in coords.iter().enumerate() {
        let report = world
            .derive(frontier_id, target_created_at_ms, *coord)
            .expect("derive leaf");
        if idx == 0 {
            target_secret_snapshot = Some(report.leaf_node_secret.expect("target leaf secret"));
        }
    }
    let target_secret = target_secret_snapshot.expect("target snapshot");

    world.retire(frontier_id, target_created_at_ms, target_coord);
    assert!(
        world.leaf(frontier_id, target_minute, target_coord).is_none(),
        "deleted leaf row must be gone",
    );

    for row in &world.rows(frontier_id) {
        if row.coord.bit_depth == TRIE_LEAF_BIT_DEPTH {
            continue;
        }
        let covers_minute = row.coord.range_start <= target_minute
            && target_minute < row.coord.range_start.saturating_add(row.coord.range_width);
        if !covers_minute {
            continue;
        }
        let derived = walk_descendant_to_leaf(
            row.node_secret,
            row.coord.range_start,
            row.coord.range_width,
            row.coord.bit_depth,
            row.coord.event_id_prefix,
            target_minute,
            target_coord,
        );
        assert_ne!(derived, target_secret, "retained row leaks deleted leaf secret");
    }

    let root_walk = walk_descendant_to_leaf(
        KEY_SECRET,
        0,
        TIME_TREE_ROOT_WIDTH,
        TIME_TREE_BIT_DEPTH,
        [0; 32],
        target_minute,
        target_coord,
    );
    assert_eq!(root_walk, target_secret);
    assert!(!world.has_root(frontier_id));
}

#[test]
fn strict_adversary_no_retained_row_derives_deleted_leaf() {
    let mut world = World::new();
    let (frontier_id, _) = seed_local_key_secret(&mut world, b"removal frontier");
    const N: usize = 8;
    let coords: Vec<EventId> = (0u8..N as u8).map(|byte| [byte ^ 0xa5; 32]).collect();
    let target_coord = coords[0];
    let target_created_at_ms: u64 = 60_000;
    let target_minute = target_created_at_ms / 60_000;

    let mut target_secret: Option<EventId> = None;
    for (idx, coord) in coords.iter().enumerate() {
        let report = world
            .derive(frontier_id, target_created_at_ms, *coord)
            .expect("derive leaf");
        if idx == 0 {
            target_secret = Some(report.leaf_node_secret.expect("target leaf secret"));
        }
    }
    let target_secret = target_secret.expect("target snapshot");

    world.retire(frontier_id, target_created_at_ms, target_coord);

    for row in &world.rows(frontier_id) {
        if row.coord.bit_depth == TRIE_LEAF_BIT_DEPTH {
            continue;
        }
        let covers_minute = row.coord.range_start <= target_minute
            && target_minute < row.coord.range_start.saturating_add(row.coord.range_width);
        if !covers_minute {
            continue;
        }
        if row.coord.bit_depth != 0 {
            let masked = mask_prefix_to_depth(target_coord, row.coord.bit_depth);
            if masked != row.coord.event_id_prefix {
                continue;
            }
        }
        let derived = walk_descendant_to_leaf(
            row.node_secret,
            row.coord.range_start,
            row.coord.range_width,
            row.coord.bit_depth,
            row.coord.event_id_prefix,
            target_minute,
            target_coord,
        );
        assert_ne!(derived, target_secret, "retained row re-derives deleted leaf");
    }
    assert!(!world.has_root(frontier_id));
}

#[test]
fn cover_summary_is_byte_equal_across_two_stores_running_same_retire() {
    let coords: Vec<EventId> = (0u8..6u8).map(|byte| [byte ^ 0xa5; 32]).collect();
    let make_world = || -> (World, EventId) {
        let mut world = World::new();
        let (frontier_id, _) = seed_local_key_secret(&mut world, &[0xab; 32]);
        for coord in &coords {
            world.derive(frontier_id, 60_000, *coord).expect("derive leaf");
        }
        world.retire(frontier_id, 60_000, coords[0]);
        (world, frontier_id)
    };

    let (alice, alice_frontier) = make_world();
    let (bob, bob_frontier) = make_world();
    assert_eq!(
        alice.cover_summary(alice_frontier),
        bob.cover_summary(bob_frontier)
    );
    assert!(
        !alice.tombstones().is_empty(),
        "retire must write tombstones so cover_summary's tombstone branch is non-empty",
    );
}

#[test]
fn after_retire_authoring_under_wiped_frontier_uses_sibling_fallback() {
    let mut world = World::new();
    let (frontier_id, _) = seed_local_key_secret(&mut world, b"removal frontier");
    let coord_a = [0xaa; 32];
    let coord_b = [0xbb; 32];
    for coord in [coord_a, coord_b] {
        world.derive(frontier_id, 60_000, coord).expect("derive leaf");
    }
    world.retire(frontier_id, 60_000, coord_a);
    assert!(
        !world.has_root(frontier_id),
        "precondition: retire must have wiped local_key_secret(F)"
    );

    let new_coord = [0xcc; 32];
    let report = world
        .derive(frontier_id, 120_000, new_coord)
        .expect("authoring after retire must succeed via sibling fallback");
    assert!(
        report.local_history_node_secret_id.is_some(),
        "sibling fallback must produce a fresh leaf row"
    );
    assert!(
        report.leaf_node_secret.is_some(),
        "sibling fallback must produce a fresh leaf secret"
    );
}

#[test]
fn after_retire_same_minute_uncovered_coord_errors_with_clear_message() {
    let mut world = World::new();
    let (frontier_id, _) = seed_local_key_secret(&mut world, b"removal frontier");
    let coord_a = [0xaa; 32];
    let coord_b = [0xbb; 32];
    for coord in [coord_a, coord_b] {
        world.derive(frontier_id, 60_000, coord).expect("derive leaf");
    }
    world.retire(frontier_id, 60_000, coord_a);

    let uncovered = [0xcc; 32];
    let err = world
        .derive(frontier_id, 60_000, uncovered)
        .expect_err("uncovered same-minute coord must error with a clear wedge message");
    assert!(
        err.contains("no retained ancestor covers"),
        "expected wedge error mentioning no retained ancestor; got: {err}"
    );
}

#[test]
fn chop_with_floor_zero_is_noop() {
    let mut world = World::new();
    let (frontier_id, local_key_secret_id) =
        seed_local_key_secret(&mut world, b"removal frontier");

    let report = world.chop(frontier_id, 0);
    assert_eq!(report.subtree_tombstones_written, 0);
    assert_eq!(report.boundary_descend_tombstones_written, 0);
    assert_eq!(report.right_side_siblings_materialized, 0);
    assert_eq!(report.purged_event_bytes, 0);

    let root = world
        .history
        .root(&frontier(frontier_id))
        .expect("F row must remain after no-op chop");
    assert_eq!(root.local_key_secret_id, local_key_secret_id);
    assert!(
        world.tombstones().is_empty(),
        "no tombstones must be written for floor=0"
    );
}

#[test]
fn chop_full_minute_writes_subtree_and_descend_tombstones() {
    let mut world = World::new();
    let (frontier_id, _) = seed_local_key_secret(&mut world, b"removal frontier");

    let floor_minute: u64 = 100;
    let report = world.chop(frontier_id, floor_minute);
    let max_levels = 63usize;
    assert!(
        report.subtree_tombstones_written <= max_levels,
        "subtree tombstones {} must be <= {} (one per boundary bit=1 level)",
        report.subtree_tombstones_written,
        max_levels,
    );
    assert!(
        report.boundary_descend_tombstones_written <= max_levels,
        "boundary descend tombstones {} must be <= {} (one per descend level)",
        report.boundary_descend_tombstones_written,
        max_levels,
    );
    assert_eq!(
        report.subtree_tombstones_written, 3,
        "floor_minute=100 has 3 set bits, so 3 fully-left subtrees are tombstoned"
    );

    let tombstones = world.tombstones();
    assert!(
        !tombstones.is_empty(),
        "non-zero floor must produce at least one tombstone"
    );
    assert!(
        tombstones.len() <= 2 * max_levels + 1,
        "tombstone count {} must be <= 2*{} + 1",
        tombstones.len(),
        max_levels,
    );
    assert!(
        !world.has_root(frontier_id),
        "F's row must be wiped after a non-zero chop"
    );
}

#[test]
fn chop_then_author_above_floor_succeeds_via_sibling() {
    let mut world = World::new();
    let (frontier_id, _) = seed_local_key_secret(&mut world, b"removal frontier");
    world.chop(frontier_id, 100);

    let report = world
        .derive(frontier_id, 200 * 60_000, [0x77; 32])
        .expect("derive above-floor must succeed via sibling cover");
    assert!(
        report.local_history_node_secret_id.is_some(),
        "leaf row must materialize from a sibling cover"
    );
    assert!(
        report.leaf_node_secret.is_some(),
        "leaf secret must derive successfully"
    );
}

#[test]
fn chop_then_author_below_floor_errors_with_clear_message() {
    let mut world = World::new();
    let (frontier_id, _) = seed_local_key_secret(&mut world, b"removal frontier");
    world.chop(frontier_id, 100);

    let err = world
        .derive(frontier_id, 50 * 60_000, [0x42; 32])
        .expect_err("below-floor authoring must wedge with a clear error");
    assert!(
        err.contains("no retained ancestor covers"),
        "expected wedge error mentioning no retained ancestor; got: {err}"
    );
}

#[test]
fn chop_is_deterministic() {
    let make_world = || -> (World, EventId) {
        let mut world = World::new();
        let (frontier_id, _) = seed_local_key_secret(&mut world, &[0xcd; 32]);
        world.chop(frontier_id, 12345);
        (world, frontier_id)
    };

    let (alice, alice_frontier) = make_world();
    let (bob, bob_frontier) = make_world();
    assert_eq!(
        alice.cover_summary(alice_frontier),
        bob.cover_summary(bob_frontier)
    );
    let mut alice_tombs = alice.tombstones();
    let mut bob_tombs = bob.tombstones();
    alice_tombs.sort_by(|a, b| a.tombstone_node_id.cmp(&b.tombstone_node_id));
    bob_tombs.sort_by(|a, b| a.tombstone_node_id.cmp(&b.tombstone_node_id));
    assert_eq!(
        alice_tombs, bob_tombs,
        "tombstone rows must be byte-identical across peers"
    );
    assert!(
        !alice_tombs.is_empty(),
        "non-zero floor must produce tombstones"
    );
}

#[test]
fn chop_after_prior_retire_does_not_resurrect_f() {
    let mut world = World::new();
    let (frontier_id, _) = seed_local_key_secret(&mut world, b"removal frontier");
    let coord_a = [0xaa; 32];
    let coord_b = [0xbb; 32];
    for coord in [coord_a, coord_b] {
        world.derive(frontier_id, 60_000, coord).expect("derive leaf");
    }
    world.retire(frontier_id, 60_000, coord_a);
    assert!(
        !world.has_root(frontier_id),
        "precondition: F must be wiped by the retire"
    );

    world.chop(frontier_id, 50);
    assert!(
        !world.has_root(frontier_id),
        "F must remain wiped after chop (chop must not resurrect F)"
    );
}

#[test]
fn chop_subsumes_and_gcs_pre_existing_leaf_tombstones() {
    let mut world = World::new();
    let (frontier_id, _) = seed_local_key_secret(&mut world, b"removal frontier");
    let coord_a = [0xaa; 32];
    let coord_b = [0xbb; 32];
    for coord in [coord_a, coord_b] {
        world
            .derive(frontier_id, 50 * 60_000, coord)
            .expect("derive leaf");
    }
    world.retire(frontier_id, 50 * 60_000, coord_a);

    let pre_tombs = world.tombstones();
    let subsumed_pre: Vec<NodeTombstoneRow> = pre_tombs
        .iter()
        .filter(|t| t.frontier.removal_frontier_id == frontier_id)
        .filter(|t| t.range_start.saturating_add(t.range_width) <= 100)
        .cloned()
        .collect();
    assert!(!subsumed_pre.is_empty());

    let report = world.chop(frontier_id, 100);
    assert!(report.subsumed_leaf_tombstones_gcd >= 1);
    assert!(report.subsumed_leaf_tombstones_gcd >= subsumed_pre.len());

    let post_tombs = world.tombstones();
    for old in &subsumed_pre {
        assert!(
            !post_tombs.iter().any(|t| {
                t.frontier.removal_frontier_id == old.frontier.removal_frontier_id
                    && t.tombstone_node_id == old.tombstone_node_id
            }),
            "subsumed tombstone {:?} must be exact-deleted by the chop GC",
            old.tombstone_node_id,
        );
    }
}

#[test]
fn chop_does_not_gc_tombstones_above_floor() {
    let mut world = World::new();
    let (frontier_id, _) = seed_local_key_secret(&mut world, b"removal frontier");
    let coord_at_50_a = [0xa1; 32];
    let coord_at_50_b = [0xa2; 32];
    let coord_at_150_a = [0xb1; 32];
    let coord_at_150_b = [0xb2; 32];
    for coord in [coord_at_50_a, coord_at_50_b] {
        world
            .derive(frontier_id, 50 * 60_000, coord)
            .expect("derive leaf at 50");
    }
    for coord in [coord_at_150_a, coord_at_150_b] {
        world
            .derive(frontier_id, 150 * 60_000, coord)
            .expect("derive leaf at 150");
    }
    world.retire(frontier_id, 50 * 60_000, coord_at_50_a);
    world.retire(frontier_id, 150 * 60_000, coord_at_150_a);

    let pre_tombs = world.tombstones();
    let above_floor: Vec<NodeTombstoneRow> = pre_tombs
        .iter()
        .filter(|t| t.frontier.removal_frontier_id == frontier_id)
        .filter(|t| t.range_start.saturating_add(t.range_width) > 100)
        .cloned()
        .collect();
    assert!(!above_floor.is_empty());

    world.chop(frontier_id, 100);

    let post_tombs = world.tombstones();
    for survivor in &above_floor {
        assert!(
            post_tombs.iter().any(|t| {
                t.frontier.removal_frontier_id == survivor.frontier.removal_frontier_id
                    && t.tombstone_node_id == survivor.tombstone_node_id
            }),
            "tombstone for range [{},{}) must survive a chop to floor=100",
            survivor.range_start,
            survivor.range_start + survivor.range_width,
        );
    }
}

#[test]
fn chop_does_not_gc_tombstones_from_other_frontier() {
    let mut world = World::new();
    let (frontier_a, _) = seed_local_key_secret(&mut world, b"frontier a");
    let (frontier_b, _) = seed_local_key_secret(&mut world, b"frontier b");
    assert_ne!(
        frontier_a, frontier_b,
        "precondition: two distinct frontiers under the same workspace"
    );

    for frontier_id in [frontier_a, frontier_b] {
        for coord in [[0xaa; 32], [0xbb; 32]] {
            world
                .derive(frontier_id, 50 * 60_000, coord)
                .expect("derive leaf");
        }
        world.retire(frontier_id, 50 * 60_000, [0xaa; 32]);
    }

    let pre_tombs_b: Vec<NodeTombstoneRow> = world
        .tombstones()
        .into_iter()
        .filter(|t| t.frontier.removal_frontier_id == frontier_b)
        .collect();
    assert!(
        !pre_tombs_b.is_empty(),
        "precondition: frontier B's retire must produce at least one tombstone"
    );

    world.chop(frontier_a, 100);

    let post_tombs_b: Vec<NodeTombstoneRow> = world
        .tombstones()
        .into_iter()
        .filter(|t| t.frontier.removal_frontier_id == frontier_b)
        .collect();
    assert_eq!(
        pre_tombs_b.len(),
        post_tombs_b.len(),
        "chop on frontier A must not touch any frontier-B tombstone"
    );
    for old in &pre_tombs_b {
        assert!(
            post_tombs_b
                .iter()
                .any(|t| t.tombstone_node_id == old.tombstone_node_id),
            "frontier-B tombstone {:?} must survive a chop on frontier A",
            old.tombstone_node_id,
        );
    }
}

#[test]
fn retired_leaf_cannot_be_derived_again() {
    let mut world = World::new();
    let (frontier_id, _) = seed_local_key_secret(&mut world, b"removal frontier");
    let coordinate = [0x21; 32];
    world.derive(frontier_id, 90_000, coordinate).expect("derive");
    assert!(world.retire(frontier_id, 90_000, coordinate).leaf_id.is_some());
    let err = world.derive(frontier_id, 90_000, coordinate).expect_err("retired");
    assert!(err.contains("no retained ancestor covers"), "{err}");
    world.derive(frontier_id, 180_000, coordinate).expect("another minute is still covered");
    assert_eq!(
        world.derive(frontier_id, 180_000, [0; 32]).err(),
        Some("derive_event_leaf requires non-zero event_id_in_minute".to_string())
    );
}

#[test]
fn chop_keeps_the_floor_minute_and_all_above_it() {
    let mut world = World::new();
    let (frontier_id, _) = seed_local_key_secret(&mut world, b"removal frontier");
    let report = world.chop(frontier_id, 100);
    assert_eq!(report.subtree_tombstones_written, 3);
    assert_eq!(report.boundary_descend_tombstones_written, 61, "100 ends in two zero bits");
    assert_eq!(report.right_side_siblings_materialized, 58, "63 less 3 set bits less 2 zeros");
    assert!(world.rows(frontier_id).iter().all(|row| row.coord.range_start >= 100));
    for minute in [100u64, 101, 103, 104, 127, 128, 1 << 40, TIME_TREE_ROOT_WIDTH - 1] {
        assert!(
            world.rows(frontier_id).iter().any(|row| {
                row.coord.range_start <= minute
                    && minute < row.coord.range_start + row.coord.range_width
            }),
            "minute {minute} is covered"
        );
    }
    world.derive(frontier_id, 100 * 60_000, [0x31; 32]).expect("the floor minute is derivable");
    let err = world.derive(frontier_id, 99 * 60_000, [0x31; 32]).expect_err("below the floor");
    assert!(err.contains("no retained ancestor covers"), "{err}");
}

#[test]
fn chop_leaves_a_coarse_tombstone_for_every_minute_below() {
    let mut world = World::new();
    let (frontier_id, _) = seed_local_key_secret(&mut world, b"removal frontier");
    world.chop(frontier_id, 100);
    let below: Vec<(u64, u64)> = world
        .tombstones()
        .iter()
        .filter(|t| t.range_start + t.range_width <= 100)
        .map(|t| (t.range_start, t.range_width))
        .collect();
    assert_eq!(below.len(), 3, "one for each set bit of the floor");
    for expected in [(0, 64), (64, 32), (96, 4)] {
        assert!(below.contains(&expected), "{below:?}");
    }
    for minute in 0..100 {
        assert!(below.iter().any(|(start, width)| *start <= minute && minute < start + width));
    }
}

#[test]
fn chop_after_retire_takes_everything_below_the_floor() {
    let mut world = World::new();
    let (frontier_id, _) = seed_local_key_secret(&mut world, b"removal frontier");
    world.derive(frontier_id, 5 * 60_000, [0x41; 32]).expect("derive");
    world.derive(frontier_id, 5 * 60_000, [0xc1; 32]).expect("derive");
    world.retire(frontier_id, 5 * 60_000, [0x41; 32]);
    assert!(!world.has_root(frontier_id));
    world.derive(frontier_id, 2 * 60_000, [0x42; 32]).expect("a sibling covers minute 2");

    world.chop(frontier_id, 10);
    assert!(
        world
            .rows(frontier_id)
            .iter()
            .all(|row| is_leaf_row(row) || row.coord.range_start >= 10),
        "no range below the floor is kept"
    );
    let err = world.derive(frontier_id, 3 * 60_000, [0x43; 32]).expect_err("below the floor");
    assert!(err.contains("no retained ancestor covers"), "{err}");
    world.derive(frontier_id, 10 * 60_000, [0x43; 32]).expect("the floor minute is derivable");
    world.derive(frontier_id, 11 * 60_000, [0x43; 32]).expect("above the floor");
    world.derive(frontier_id, 5_000 * 60_000, [0x43; 32]).expect("far above the floor");
}

#[test]
fn chop_beyond_the_time_axis_keeps_nothing() {
    let mut world = World::new();
    let (frontier_id, _) = seed_local_key_secret(&mut world, b"removal frontier");
    world.chop(frontier_id, 100);
    world.chop(frontier_id, u64::MAX);
    assert!(world.rows(frontier_id).is_empty());
    assert!(!world.has_root(frontier_id));
}

#[test]
fn second_retirement_starts_from_what_the_first_one_left() {
    let mut world = World::new();
    let (frontier_id, _) = seed_local_key_secret(&mut world, b"removal frontier");
    let (first, second) = ([0x51; 32], [0x52; 32]);
    world.derive(frontier_id, 10 * 60_000, first).expect("derive");
    world.derive(frontier_id, 500 * 60_000, second).expect("derive");
    world.derive(frontier_id, 500 * 60_000, [0xd2; 32]).expect("derive");
    world.retire(frontier_id, 10 * 60_000, first);
    assert!(!world.has_root(frontier_id), "precondition: the root is wiped");

    let leaf_id = world
        .leaf(frontier_id, 500, second)
        .expect("leaf")
        .local_history_node_secret_id;
    let report = world.retire(frontier_id, 500 * 60_000, second);
    assert_eq!(report.leaf_id, Some(leaf_id));
    assert!(report.wiped_path_rows > 0, "the ranges above the leaf are wiped");
    assert!(world.store.events.event_bytes(&leaf_id).is_none());
    assert!(world.tombstones().iter().any(|t| t.tombstone_node_id == leaf_id));
    for row in world.rows(frontier_id) {
        let holds = row.coord.range_start <= 500
            && 500 < row.coord.range_start + row.coord.range_width;
        let on_path = mask_prefix_to_depth(second, row.coord.bit_depth) == row.coord.event_id_prefix;
        assert!(!(holds && on_path), "no kept row covers the retired leaf");
    }
    let err = world.derive(frontier_id, 500 * 60_000, second).expect_err("retired");
    assert!(err.contains("no retained ancestor covers"), "{err}");
    world.derive(frontier_id, 502 * 60_000, second).expect("another minute is still covered");
    assert!(world.leaf(frontier_id, 500, [0xd2; 32]).is_some(), "the other leaf stays");
}

/// A registry whose events hold the id of the one event that they need.
struct Waiting;

impl EventRegistry for Waiting {
    fn record_from_bytes(&self, bytes: Vec<u8>) -> Result<EventRecord, String> {
        let mut dependency = [0; 32];
        dependency.copy_from_slice(&bytes[..32]);
        let mut record = local_record(bytes);
        record.dependencies = vec![dependency];
        Ok(record)
    }

    fn project_record(
        &self,
        _store: &Store,
        _event: &EventWithContext<'_>,
    ) -> Result<ProjectionOutput, String> {
        Ok(ProjectionOutput::default())
    }
}

#[test]
fn derived_leaf_releases_and_applies_what_waited_for_it() {
    let coordinate = [0x61; 32];
    let mut preview = World::new();
    let (frontier_id, _) = seed_local_key_secret(&mut preview, b"removal frontier");
    let leaf_id = preview
        .derive(frontier_id, 60_000, coordinate)
        .expect("derive")
        .local_history_node_secret_id
        .expect("leaf id");

    let mut world = World::new();
    seed_local_key_secret(&mut world, b"removal frontier");
    let mut bytes = leaf_id.to_vec();
    bytes.extend_from_slice(b"waits");
    let waiting_id = event_id(&bytes);
    let record = Waiting.record_from_bytes(bytes).expect("record");
    events::run(&mut world.store, &Waiting, AdmitRecords { records: vec![record] }).expect("admit");
    assert_eq!(world.store.events.event_status(&waiting_id), Some(EventStatus::Blocked));

    let output = run(
        &mut world.keys,
        &mut world.history,
        &mut world.store,
        &mut world.messages,
        &Waiting,
        Work::DeriveEventLeaf {
            workspace_id: WORKSPACE,
            removal_frontier_id: frontier_id,
            created_at_ms: 60_000,
            event_id_in_minute: coordinate,
        },
    )
    .expect("derive");
    assert!(matches!(output, Output::DerivedEventLeaf(_)));
    assert_eq!(world.store.events.event_status(&waiting_id), Some(EventStatus::Applied));
}

#[test]
fn work_that_stores_nothing_applies_nothing() {
    let mut world = World::new();
    let (frontier_id, root_id) = seed_local_key_secret(&mut world, b"removal frontier");
    let coordinate = [0x61; 32];
    world.derive(frontier_id, 60_000, coordinate).expect("derive");

    let mut bytes = root_id.to_vec();
    bytes.extend_from_slice(b"ready");
    let ready_id = event_id(&bytes);
    let record = Waiting.record_from_bytes(bytes).expect("record");
    world.store.events.insert_event(&record, EventStatus::Ready);
    assert_eq!(world.store.events.event_status(&ready_id), Some(EventStatus::Ready));

    let opened: Table<Vec<u8>> = Table::new();
    let again = Work::DeriveEventLeaf {
        workspace_id: WORKSPACE,
        removal_frontier_id: frontier_id,
        created_at_ms: 60_000,
        event_id_in_minute: coordinate,
    };
    let no_floor = Work::ChopTimeTreePrefix {
        workspace_id: WORKSPACE,
        removal_frontier_id: frontier_id,
        floor_minute: 0,
    };
    for work in [
        Work::DeriveKeySecrets { batch_size: 16, opened: &opened },
        Work::DrainPendingMessageLeaves { batch_size: 16 },
        again,
        no_floor,
    ] {
        run(
            &mut world.keys,
            &mut world.history,
            &mut world.store,
            &mut world.messages,
            &Waiting,
            work,
        )
        .expect("work");
        assert_eq!(world.store.events.event_status(&ready_id), Some(EventStatus::Ready));
    }

    run(
        &mut world.keys,
        &mut world.history,
        &mut world.store,
        &mut world.messages,
        &Waiting,
        Work::DeriveEventLeaf {
            workspace_id: WORKSPACE,
            removal_frontier_id: frontier_id,
            created_at_ms: 60_000,
            event_id_in_minute: [0x62; 32],
        },
    )
    .expect("another leaf");
    assert_eq!(world.store.events.event_status(&ready_id), Some(EventStatus::Applied));
}
