use chacha20poly1305::aead::{Aead, KeyInit, Payload};
use chacha20poly1305::XChaCha20Poly1305;
use topo_workers::bytes::EventId;
use topo_workers::content::{
    make_triple_key, message_key, ContentStore, MessageHead, MessageRow, MessageTombstoneRow,
    ReactionHead, ReactionRow, SealedMessageRow, SealedReactionRow,
};
use topo_workers::content_decrypt;
use topo_workers::content_decrypt::{
    emoji_of_reaction, list_sealed_messages, list_sealed_reactions, make_message_associated_data,
    make_reaction_associated_data, text_of_message,
};
use topo_workers::content_events::{
    decode_file, decode_file_slice, decode_message, decode_reaction, encode_file,
    encode_file_slice, encode_message, encode_reaction, file_deletion_label,
    message_deletion_label, message_event_id_in_minute, FileEvent, FileSliceEvent, MessageEvent, ReactionEvent,
};
use topo_workers::content_purge;
use topo_workers::event_store::Mark;
use topo_workers::events;
use topo_workers::events::{AdmitRecords, EventRegistry, EventWithContext, ProjectionOutput};
use topo_workers::hash::event_id;
use topo_workers::history::{make_key_secret_row, Frontier};
use topo_workers::history_store::HistoryStore;
use topo_workers::history_tree::derive_event_leaf;
use topo_workers::store::Store;
use topo_workers::table::Table;
use topo_workers::types::{EventLabel, EventRecord, EventScope, EventStatus};

const WORKSPACE: EventId = [1; 32];
const AUTHOR: EventId = [2; 32];
const SIGNER: EventId = [3; 32];
const FRONTIER: EventId = [4; 32];
const KEY_SECRET: EventId = [5; 32];
const LEAF_NODE_ID: EventId = [42; 32];

struct NoModules;

impl EventRegistry for NoModules {
    fn record_from_bytes(&self, _bytes: Vec<u8>) -> Result<EventRecord, String> {
        Err("no modules".to_string())
    }

    fn project_record(
        &self,
        _store: &Store,
        _event: &EventWithContext<'_>,
    ) -> Result<ProjectionOutput, String> {
        Err("no modules".to_string())
    }
}

fn shared_record(canonical_bytes: Vec<u8>) -> EventRecord {
    EventRecord {
        timestamp: 1,
        body_len: canonical_bytes.len(),
        canonical_bytes,
        dependencies: Vec::new(),
        workspace_id: Some(WORKSPACE),
        scope: EventScope::Shared,
    }
}

fn message_record(text: &str) -> EventRecord {
    shared_record(encode_message(
        &MessageEvent {
            workspace_id: WORKSPACE,
            author_user_id: AUTHOR,
            removal_frontier_id: FRONTIER,
            local_history_node_secret_id: LEAF_NODE_ID,
            created_at_ms: 10,
        },
        &seal(&KEY_SECRET, &[0; 24], b"message", text),
    ))
}

fn reaction_record(target_message_id: EventId) -> EventRecord {
    shared_record(encode_reaction(
        &ReactionEvent {
            workspace_id: WORKSPACE,
            author_user_id: AUTHOR,
            target_message_id,
            removal_frontier_id: FRONTIER,
            local_history_node_secret_id: LEAF_NODE_ID,
            created_at_ms: 11,
        },
        &seal(&KEY_SECRET, &[0; 24], b"reaction", "+1"),
    ))
}

/// A text as it stands in a slot: its length and then its bytes.
fn slot(text: &str) -> Vec<u8> {
    let mut out = (text.len() as u64).to_be_bytes().to_vec();
    out.extend_from_slice(text.as_bytes());
    out
}

fn seal(key: &EventId, nonce: &[u8; 24], associated_data: &[u8], text: &str) -> Vec<u8> {
    let slot = slot(text);
    XChaCha20Poly1305::new(key.into())
        .encrypt(nonce.into(), Payload { msg: &slot, aad: associated_data })
        .expect("seal")
}

fn message_head(message_id: EventId, removal_frontier_id: EventId, secret_id: EventId) -> MessageHead {
    MessageHead {
        workspace_id: WORKSPACE,
        message_id,
        signer_endpoint_shared_id: SIGNER,
        created_at_ms: 10,
        author_user_id: AUTHOR,
        removal_frontier_id,
        local_key_secret_id: secret_id,
    }
}

fn reaction_head(
    reaction_id: EventId,
    target_message_id: EventId,
    removal_frontier_id: EventId,
    secret_id: EventId,
) -> ReactionHead {
    ReactionHead {
        workspace_id: WORKSPACE,
        reaction_id,
        signer_endpoint_shared_id: SIGNER,
        created_at_ms: 11,
        target_message_id,
        author_user_id: AUTHOR,
        removal_frontier_id,
        local_key_secret_id: secret_id,
    }
}

#[test]
fn purges_deleted_message_and_attached_reaction_bytes_and_rows() {
    let mut store = Store::new();
    let mut content = ContentStore::new();
    let mut history = HistoryStore::new();
    let message_record = message_record("delete me");
    let message_id = event_id(&message_record.canonical_bytes);
    let reaction_record = reaction_record(message_id);
    let reaction_id = event_id(&reaction_record.canonical_bytes);

    assert!(store.events.insert_event(&message_record, EventStatus::Applied));
    assert!(store.events.insert_event(&reaction_record, EventStatus::Applied));
    content.messages.insert(
        message_key(&WORKSPACE, &message_id),
        MessageRow {
            head: message_head(message_id, FRONTIER, LEAF_NODE_ID),
            text: b"delete me".to_vec(),
        },
    );
    content.reactions.insert(
        message_key(&WORKSPACE, &reaction_id),
        ReactionRow {
            head: reaction_head(reaction_id, message_id, FRONTIER, LEAF_NODE_ID),
            emoji: b"+1".to_vec(),
        },
    );
    store.events.insert_labels(&vec![EventLabel {
        event_id: message_id,
        label: message_deletion_label(&AUTHOR),
    }]);

    let report = content_purge::run(
        &mut content,
        &mut history,
        &mut store,
        &NoModules,
        content_purge::Work::Drain { limit: 10 },
    )
    .expect("purge");

    assert_eq!(report.tombstones_written, 1);
    assert_eq!(report.event_bytes_purged, 2);
    assert!(store.events.event_bytes(&message_id).is_none());
    assert!(store.events.event_bytes(&reaction_id).is_none());
    assert!(content.message_tombstone_exists(&WORKSPACE, &message_id));
    assert!(!content.messages.contains(&message_key(&WORKSPACE, &message_id)));
    assert_eq!(content.reactions.keys_with_prefix(&WORKSPACE, usize::MAX).len(), 0);
    assert_eq!(report.message_rows_deleted, 1);
    assert_eq!(report.reaction_rows_deleted, 1);
}

#[test]
fn ignores_deletion_label_from_non_author() {
    let mut store = Store::new();
    let mut content = ContentStore::new();
    let mut history = HistoryStore::new();
    let message_record = message_record("keep me");
    let message_id = event_id(&message_record.canonical_bytes);
    assert!(store.events.insert_event(&message_record, EventStatus::Applied));
    store.events.insert_labels(&vec![EventLabel {
        event_id: message_id,
        label: message_deletion_label(&[99; 32]),
    }]);

    let report = content_purge::run(
        &mut content,
        &mut history,
        &mut store,
        &NoModules,
        content_purge::Work::Drain { limit: 10 },
    )
    .expect("purge");

    assert_eq!(report.event_bytes_purged, 0);
    assert!(store.events.event_bytes(&message_id).is_some());
    assert!(!content.message_tombstone_exists(&WORKSPACE, &message_id));
}

#[test]
fn deleted_file_takes_its_slices_along() {
    let mut store = Store::new();
    let mut content = ContentStore::new();
    let mut history = HistoryStore::new();
    let file = shared_record(encode_file(
        &FileEvent {
            workspace_id: WORKSPACE,
            author_user_id: AUTHOR,
            message_id: [8; 32],
            file_id: [9; 32],
            removal_frontier_id: FRONTIER,
            local_history_node_secret_id: LEAF_NODE_ID,
            created_at_ms: 12,
        },
        b"name",
    ));
    let file_event_id = event_id(&file.canonical_bytes);
    let slice = shared_record(encode_file_slice(
        &FileSliceEvent {
            workspace_id: WORKSPACE,
            file_id: [9; 32],
            file_event_id,
            slice_number: 3,
        },
        b"slice",
    ));
    let slice_id = event_id(&slice.canonical_bytes);
    let slice = EventRecord { timestamp: 2, ..slice };
    let other = shared_record(encode_file_slice(
        &FileSliceEvent {
            workspace_id: WORKSPACE,
            file_id: [10; 32],
            file_event_id: [11; 32],
            slice_number: 3,
        },
        b"slice",
    ));
    let other_id = event_id(&other.canonical_bytes);
    content
        .files_by_file_id
        .insert(make_triple_key(&WORKSPACE, &[10; 32], &[11; 32]), Mark);
    store.events.insert_event(&file, EventStatus::Applied);
    store.events.insert_event(&slice, EventStatus::Applied);
    store.events.insert_event(&other, EventStatus::Applied);
    store.events.insert_labels(&vec![EventLabel {
        event_id: file_event_id,
        label: file_deletion_label(&AUTHOR),
    }]);

    let report = content_purge::run(
        &mut content,
        &mut history,
        &mut store,
        &NoModules,
        content_purge::Work::Drain { limit: 10 },
    )
    .expect("purge");

    assert_eq!(report.event_bytes_purged, 2);
    assert!(!store.events.has_event(&file_event_id));
    assert!(!store.events.has_event(&slice_id));
    assert!(store.events.has_event(&other_id));
}

struct Sealed {
    content: ContentStore,
    history: HistoryStore,
    frontiers: Table<Mark>,
    message_id: EventId,
    reaction_id: EventId,
}

fn sealed_rows(message_text: &str, emoji: &str) -> Sealed {
    let key_secret: EventId = [7; 32];
    let frontier_id = event_id(b"removal frontier");
    let frontier = Frontier { workspace_id: WORKSPACE, removal_frontier_id: frontier_id };
    let root = make_key_secret_row(&frontier, &key_secret);
    let secret_id = root.local_key_secret_id;
    let mut history = HistoryStore::new();
    history.insert_root(root);
    let mut frontiers: Table<Mark> = Table::new();
    let mut frontier_key = WORKSPACE.to_vec();
    frontier_key.extend_from_slice(&frontier_id);
    frontiers.insert(frontier_key, Mark);

    let mut content = ContentStore::new();
    let nonce = [13; 24];
    let message_id = [20; 32];
    let head = message_head(message_id, frontier_id, secret_id);
    let ciphertext = seal(&key_secret, &nonce, &make_message_associated_data(&head), message_text);
    content.sealed_messages.insert(
        message_key(&WORKSPACE, &message_id),
        SealedMessageRow { head, expires_at_minute: u64::MAX, nonce, ciphertext },
    );
    let reaction_id = [21; 32];
    let head = reaction_head(reaction_id, message_id, frontier_id, secret_id);
    let ciphertext = seal(&key_secret, &nonce, &make_reaction_associated_data(&head), emoji);
    content.sealed_reactions.insert(
        message_key(&WORKSPACE, &reaction_id),
        SealedReactionRow { head, nonce, ciphertext },
    );
    Sealed { content, history, frontiers, message_id, reaction_id }
}

#[test]
fn materializes_plaintext_rows_from_sealed_message_and_reaction_rows() {
    let mut sealed = sealed_rows("opened", "ok");

    let report = content_decrypt::run(
        &mut sealed.content,
        &sealed.history,
        &sealed.frontiers,
        content_decrypt::Work::Drain { limit: 10 },
    )
    .expect("materialize");

    assert_eq!(report.materialized_messages, 1);
    assert_eq!(report.materialized_reactions, 1);
    assert_eq!(
        sealed
            .content
            .messages
            .get(&message_key(&WORKSPACE, &sealed.message_id))
            .expect("message present")
            .text,
        b"opened".to_vec()
    );
    assert_eq!(
        sealed
            .content
            .reactions
            .get(&message_key(&WORKSPACE, &sealed.reaction_id))
            .expect("reaction present")
            .emoji,
        b"ok".to_vec()
    );
    assert!(list_sealed_messages(&sealed.content, 10).is_empty());
    assert!(list_sealed_reactions(&sealed.content, 10).is_empty());
}

#[test]
fn waits_for_the_key_of_a_frontier() {
    let mut sealed = sealed_rows("opened", "ok");
    sealed.history = HistoryStore::new();

    let report = content_decrypt::run(
        &mut sealed.content,
        &sealed.history,
        &sealed.frontiers,
        content_decrypt::Work::Drain { limit: 10 },
    )
    .expect("materialize");

    assert_eq!(report.scanned_messages, 1);
    assert_eq!(report.materialized_messages, 0);
    assert_eq!(report.skipped_messages, 1);
    assert_eq!(list_sealed_messages(&sealed.content, 10).len(), 1);
    assert_eq!(list_sealed_reactions(&sealed.content, 10).len(), 1);
}

#[test]
fn broken_seal_undoes_the_whole_run() {
    let mut sealed = sealed_rows("opened", "ok");
    let key = message_key(&WORKSPACE, &sealed.reaction_id);
    let mut row = sealed.content.sealed_reactions.remove(&key).expect("sealed reaction");
    row.ciphertext[0] ^= 1;
    sealed.content.sealed_reactions.insert(key, row);

    let error = content_decrypt::run(
        &mut sealed.content,
        &sealed.history,
        &sealed.frontiers,
        content_decrypt::Work::Drain { limit: 10 },
    )
    .expect_err("a broken seal is an error");

    assert!(error.starts_with("drain content decrypt: "), "{error}");
    assert!(error.contains("open sealed reaction"), "{error}");
    assert_eq!(list_sealed_messages(&sealed.content, 10).len(), 1);
    assert!(!sealed
        .content
        .messages
        .contains(&message_key(&WORKSPACE, &sealed.message_id)));
}

#[test]
fn slots_hold_exactly_one_text() {
    assert_eq!(text_of_message(&None), Err("open sealed message".to_string()));
    assert_eq!(emoji_of_reaction(&None), Err("open sealed reaction".to_string()));
    assert_eq!(text_of_message(&Some(slot("hi"))), Ok(b"hi".to_vec()));
    assert_eq!(emoji_of_reaction(&Some(slot("+1"))), Ok(b"+1".to_vec()));
    let mut longer = slot("hi");
    longer.push(0);
    assert!(text_of_message(&Some(longer)).is_err());
    assert!(text_of_message(&Some(vec![0, 0])).is_err());
}

#[test]
fn content_events_read_back_what_was_written() {
    let message = MessageEvent {
        workspace_id: WORKSPACE,
        author_user_id: AUTHOR,
        removal_frontier_id: FRONTIER,
        local_history_node_secret_id: LEAF_NODE_ID,
        created_at_ms: 10,
    };
    let read = decode_message(&encode_message(&message, b"sealed")).expect("message");
    assert_eq!(read.workspace_id, WORKSPACE);
    assert_eq!(read.author_user_id, AUTHOR);
    assert_eq!(read.removal_frontier_id, FRONTIER);
    assert_eq!(read.local_history_node_secret_id, LEAF_NODE_ID);
    assert_eq!(read.created_at_ms, 10);

    let reaction = ReactionEvent {
        workspace_id: WORKSPACE,
        author_user_id: AUTHOR,
        target_message_id: [6; 32],
        removal_frontier_id: FRONTIER,
        local_history_node_secret_id: LEAF_NODE_ID,
        created_at_ms: 11,
    };
    let bytes = encode_reaction(&reaction, b"");
    let read = decode_reaction(&bytes).expect("reaction");
    assert_eq!(read.target_message_id, [6; 32]);
    assert_eq!(read.created_at_ms, 11);
    assert!(decode_message(&bytes).is_err());
    assert!(decode_file(&bytes).is_err());
    assert!(decode_file_slice(&bytes).is_err());
    assert!(decode_reaction(&bytes[..bytes.len() - 1]).is_err());

    let slice = FileSliceEvent {
        workspace_id: WORKSPACE,
        file_id: [9; 32],
        file_event_id: [10; 32],
        slice_number: 3,
    };
    let read = decode_file_slice(&encode_file_slice(&slice, b"x")).expect("slice");
    assert_eq!(read.file_event_id, [10; 32]);
    assert_eq!(read.slice_number, 3);
}

#[test]
fn deleted_message_and_its_reactions_stay_hidden() {
    let mut sealed = sealed_rows("opened", "ok");
    sealed.content.insert_message_tombstone(MessageTombstoneRow {
        workspace_id: WORKSPACE,
        message_id: sealed.message_id,
        author_user_id: AUTHOR,
        authored_minute: 0,
    });

    let report = content_decrypt::run(
        &mut sealed.content,
        &sealed.history,
        &sealed.frontiers,
        content_decrypt::Work::Drain { limit: 10 },
    )
    .expect("materialize");

    assert_eq!(report.materialized_messages, 0);
    assert_eq!(report.materialized_reactions, 0);
    assert!(list_sealed_messages(&sealed.content, 10).is_empty());
    assert!(list_sealed_reactions(&sealed.content, 10).is_empty());
    assert_eq!(sealed.content.messages.len(), 0);
    assert_eq!(sealed.content.reactions.len(), 0);
}

#[test]
fn message_under_another_key_waits() {
    let mut sealed = sealed_rows("opened", "ok");
    let key = message_key(&WORKSPACE, &sealed.message_id);
    let mut row = sealed.content.sealed_messages.remove(&key).expect("sealed message");
    row.head.local_key_secret_id = [99; 32];
    sealed.content.sealed_messages.insert(key, row);

    let report = content_decrypt::run(
        &mut sealed.content,
        &sealed.history,
        &sealed.frontiers,
        content_decrypt::Work::Drain { limit: 10 },
    )
    .expect("materialize");

    assert_eq!(report.skipped_messages, 1);
    assert_eq!(report.materialized_reactions, 1);
    assert_eq!(list_sealed_messages(&sealed.content, 10).len(), 1);
}

#[test]
fn file_events_read_back_what_was_written() {
    let file = FileEvent {
        workspace_id: WORKSPACE,
        author_user_id: AUTHOR,
        message_id: [8; 32],
        file_id: [9; 32],
        removal_frontier_id: FRONTIER,
        local_history_node_secret_id: LEAF_NODE_ID,
        created_at_ms: 12,
    };
    let bytes = encode_file(&file, b"name");
    let read = decode_file(&bytes).expect("file");
    assert_eq!(read.message_id, [8; 32]);
    assert_eq!(read.file_id, [9; 32]);
    assert_eq!(read.created_at_ms, 12);
    assert!(decode_file_slice(&bytes).is_err());
}

#[test]
fn sealed_reaction_of_a_deleted_message_is_dropped_by_decryption() {
    let mut store = Store::new();
    let mut content = ContentStore::new();
    let mut history = HistoryStore::new();
    let message_record = message_record("delete me");
    let message_id = event_id(&message_record.canonical_bytes);
    let reaction_record = reaction_record(message_id);
    let reaction_id = event_id(&reaction_record.canonical_bytes);
    store.events.insert_event(&message_record, EventStatus::Applied);
    store.events.insert_event(&reaction_record, EventStatus::Applied);
    content.sealed_reactions.insert(
        message_key(&WORKSPACE, &reaction_id),
        SealedReactionRow {
            head: reaction_head(reaction_id, message_id, FRONTIER, LEAF_NODE_ID),
            nonce: [13; 24],
            ciphertext: vec![1, 2, 3],
        },
    );
    store.events.insert_labels(&vec![EventLabel {
        event_id: message_id,
        label: message_deletion_label(&AUTHOR),
    }]);
    content_purge::run(
        &mut content,
        &mut history,
        &mut store,
        &NoModules,
        content_purge::Work::Drain { limit: 10 },
    )
    .expect("purge");
    assert!(store.events.event_bytes(&reaction_id).is_none());
    assert!(
        content.sealed_reactions.contains(&message_key(&WORKSPACE, &reaction_id)),
        "the purge takes the bytes and leaves the sealed row"
    );

    let frontiers: Table<Mark> = Table::new();
    content_decrypt::run(
        &mut content,
        &history,
        &frontiers,
        content_decrypt::Work::Drain { limit: 10 },
    )
    .expect("decrypt");
    assert!(!content.sealed_reactions.contains(&message_key(&WORKSPACE, &reaction_id)));
    assert!(!content.reactions.contains(&message_key(&WORKSPACE, &reaction_id)));
}

/// A registry whose events hold the id of the one event that they need.
struct Waiting;

impl EventRegistry for Waiting {
    fn record_from_bytes(&self, bytes: Vec<u8>) -> Result<EventRecord, String> {
        let mut dependency = [0; 32];
        dependency.copy_from_slice(&bytes[..32]);
        let mut record = shared_record(bytes);
        record.scope = EventScope::Local;
        record.dependencies = vec![dependency];
        Ok(record)
    }

    fn project_record(
        &self,
        _store: &Store,
        _event: &EventWithContext<'_>,
    ) -> Result<ProjectionOutput, String> {
        Ok(ProjectionOutput::default())
    }
}

/// Stores with a message that its author deleted, and its leaf.
fn deleted_message_with_leaf() -> (ContentStore, HistoryStore, Store) {
    let frontier = Frontier { workspace_id: WORKSPACE, removal_frontier_id: FRONTIER };
    let (content, mut history, mut store) =
        (ContentStore::new(), HistoryStore::new(), Store::new());
    let message = message_record("delete me");
    store.events.insert_event(&message, EventStatus::Applied);
    store.events.insert_labels(&vec![EventLabel {
        event_id: event_id(&message.canonical_bytes),
        label: message_deletion_label(&AUTHOR),
    }]);
    assert!(history.insert_root(make_key_secret_row(&frontier, &KEY_SECRET)));
    derive_event_leaf(
        &mut history,
        &mut store.events,
        frontier,
        10,
        message_event_id_in_minute(&WORKSPACE, &AUTHOR, &FRONTIER, 10),
    )
    .expect("derive");
    (content, history, store)
}

#[test]
fn purge_applies_what_waited_for_its_nodes() {
    let frontier = Frontier { workspace_id: WORKSPACE, removal_frontier_id: FRONTIER };
    let (mut content, mut history, mut store) = deleted_message_with_leaf();
    let report = content_purge::run(
        &mut content,
        &mut history,
        &mut store,
        &Waiting,
        content_purge::Work::Drain { limit: 10 },
    )
    .expect("purge");
    assert_eq!(report.retired_message_leaves, 1);
    let kept = history.list_for_frontier(&frontier);

    let (mut content, mut history, mut store) = deleted_message_with_leaf();
    let node_id = kept
        .iter()
        .map(|row| row.local_history_node_secret_id)
        .find(|id| !store.events.has_event(id))
        .expect("a new node");
    let mut bytes = node_id.to_vec();
    bytes.extend_from_slice(b"waits");
    let waiting_id = event_id(&bytes);
    let record = Waiting.record_from_bytes(bytes).expect("record");
    events::run(&mut store, &Waiting, AdmitRecords { records: vec![record] }).expect("admit");
    assert_eq!(store.events.event_status(&waiting_id), Some(EventStatus::Blocked));
    content_purge::run(
        &mut content,
        &mut history,
        &mut store,
        &Waiting,
        content_purge::Work::Drain { limit: 10 },
    )
    .expect("purge");
    assert_eq!(store.events.event_status(&waiting_id), Some(EventStatus::Applied));
}
