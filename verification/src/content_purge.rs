//! Purging deleted content.
//!
//! A message is purged when its author deleted it, a reaction when its message was deleted, a
//! file when its message was deleted or its author deleted the file, and a slice when its file
//! is gone. What is purged loses its rows and its stored bytes; a message leaves a tombstone.
//! The leaves of purged messages and files are retired afterwards. Where that stored an event,
//! the events that are ready then are applied.
use vstd::prelude::*;
use crate::bytes::{bytes_eq, has_prefix, id_with, lemma_id_ext, lemma_id_with, EventId};
use crate::connection_facts::is_type;
use crate::content::{
    make_slice_key, make_triple_key, message_key, message_key_bytes, slice_key, tombstone_written,
    triple_key, ContentState, ContentStore, MessageTombstoneRow,
};
use crate::content_events::{
    decode_file, decode_file_slice, decode_message, decode_reaction, decoded_file,
    decoded_file_slice, decoded_message, decoded_reaction, deletion_label_of, file_coordinate,
    file_deletion_label, file_event_id_in_minute, message_coordinate, message_deletion_label,
    message_event_id_in_minute, FileEvent, FileSliceEvent, MessageEvent, ReactionEvent,
    LABEL_FILE_DELETED, LABEL_MESSAGE_DELETED, TYPE_SIGNED_FILE, TYPE_SIGNED_FILE_SLICE,
    TYPE_SIGNED_MESSAGE, TYPE_SIGNED_REACTION,
};
use crate::event_store::{id_views, shared_ids, Mark};
use crate::events::{
    self, after_ready, module_error, module_error_text, ready_applied, saturated, ApplyReadyReport,
    DrainUntilIdle, EventRegistry, DEFAULT_READY_BATCH,
};
use crate::history::{leaf_coord, Frontier};
use crate::history_laws::{
    law_leaf_stays_until_it_is_retired, law_retirement_uncovers_for_good,
    lemma_kept_leaf_is_covered,
};
use crate::history_store::{valid_history, HistoryState, HistoryStore};
use crate::history_tree::{covered, retire_deleted_event_leaf, retired, vault, Vault};
use crate::key_unwrap::without_keys;
use crate::purging::{purge_event_storage_in_tx, purged_store};
use crate::store::{Store, StoreState};
use crate::table::{
    at_most, is_listing, key_views, lemma_listing_exists, listing, with_prefix, Table,
};
use crate::text::prefixed;

verus! {

/// What a purge counted.
#[derive(Debug, Clone, PartialEq, Eq)]
pub struct PurgeReport {
    pub scanned_events: usize,
    pub tombstones_written: usize,
    pub message_rows_deleted: usize,
    pub reaction_rows_deleted: usize,
    pub file_rows_deleted: usize,
    pub file_slice_rows_deleted: usize,
    pub event_bytes_purged: usize,
    pub retired_message_leaves: usize,
}

/// What a purge counted, without machine limits.
pub struct PurgeTally {
    pub scanned: nat,
    pub tombstones: nat,
    pub messages: nat,
    pub reactions: nat,
    pub files: nat,
    pub slices: nat,
    pub purged: nat,
    pub leaves: nat,
    /// Some event was stored: a node that a retired leaf left beside it.
    pub stored: bool,
}

/// The counts before anything is purged.
pub open spec fn nothing_purged() -> PurgeTally {
    PurgeTally {
        scanned: 0,
        tombstones: 0,
        messages: 0,
        reactions: 0,
        files: 0,
        slices: 0,
        purged: 0,
        leaves: 0,
        stored: false,
    }
}

impl PurgeReport {
    /// A report holds some counts.
    pub open spec fn holds(&self, t: PurgeTally) -> bool {
        &&& self.scanned_events == saturated(t.scanned as int)
        &&& self.tombstones_written == saturated(t.tombstones as int)
        &&& self.message_rows_deleted == saturated(t.messages as int)
        &&& self.reaction_rows_deleted == saturated(t.reactions as int)
        &&& self.file_rows_deleted == saturated(t.files as int)
        &&& self.file_slice_rows_deleted == saturated(t.slices as int)
        &&& self.event_bytes_purged == saturated(t.purged as int)
        &&& self.retired_message_leaves == saturated(t.leaves as int)
    }
}

impl Default for PurgeReport {
    fn default() -> (r: PurgeReport)
        ensures
            r.holds(nothing_purged()),
    {
        PurgeReport {
            scanned_events: 0,
            tombstones_written: 0,
            message_rows_deleted: 0,
            reaction_rows_deleted: 0,
            file_rows_deleted: 0,
            file_slice_rows_deleted: 0,
            event_bytes_purged: 0,
            retired_message_leaves: 0,
        }
    }
}

/// A leaf that is to be retired.
#[derive(Debug, Clone, Copy, PartialEq, Eq)]
pub struct RetireLeafJob {
    pub frontier: Frontier,
    pub created_at_ms: u64,
    pub event_id_in_minute: EventId,
}

/// Where a purge stands.
pub struct Purging {
    pub content: ContentState,
    pub store: StoreState,
    pub jobs: Seq<RetireLeafJob>,
    pub tally: PurgeTally,
}

/// One for what was there.
pub open spec fn one_if(b: bool) -> nat {
    if b {
        1
    } else {
        0
    }
}

/// The store without an event, and the count of purged events.
pub open spec fn event_purged(p: Purging, id: Seq<u8>) -> Purging {
    Purging {
        store: purged_store(p.store, id),
        tally: PurgeTally {
            purged: p.tally.purged + one_if(p.store.events.events.contains_key(id)),
            ..p.tally
        },
        ..p
    }
}

fn purge_event(store: &mut Store, report: &mut PurgeReport, id: &EventId, Ghost(p): Ghost<Purging>)
    requires
        old(store).wf(),
        p.store == old(store)@,
        old(report).holds(p.tally),
    ensures
        final(store).wf(),
        final(store)@ == event_purged(p, id@).store,
        final(report).holds(event_purged(p, id@).tally),
{
    if purge_event_storage_in_tx(store, id) {
        report.event_bytes_purged = report.event_bytes_purged.saturating_add(1);
    }
}

// ---------------------------------------------------------------------------
// Labels
// ---------------------------------------------------------------------------

/// The author of an event deleted it: it carries the label of that.
pub open spec fn deleted_by(s: StoreState, id: Seq<u8>, kind: u8, author: EventId) -> bool {
    s.events.labels_of(id).contains(deletion_label_of(kind, author))
}

fn has_label(store: &Store, id: &EventId, label: &Vec<u8>) -> (r: bool)
    requires
        store.wf(),
    ensures
        r == store@.events.labels_of(id@).contains(label@),
{
    let labels = store.events.event_labels(id);
    let ghost all = key_views(labels@);
    let mut i: usize = 0;
    while i < labels.len()
        invariant
            i <= labels@.len(),
            all == key_views(labels@),
            is_listing(all, store@.events.labels_of(id@)),
            forall|j: int| 0 <= j < i ==> (#[trigger] all[j]) != label@,
        decreases labels.len() - i,
    {
        assert(all[i as int] == labels@[i as int]@);
        if bytes_eq(labels[i].as_slice(), label.as_slice()) {
            assert(all.contains(label@));
            return true;
        }
        i = i + 1;
    }
    proof {
        if all.contains(label@) {
            let j = choose|j: int| 0 <= j < all.len() && all[j] == label@;
            assert(all[j] != label@);
        }
    }
    false
}

fn has_author_deletion_label(store: &Store, message_id: &EventId, author: &EventId) -> (r: bool)
    requires
        store.wf(),
    ensures
        r == deleted_by(store@, message_id@, LABEL_MESSAGE_DELETED, *author),
{
    has_label(store, message_id, &message_deletion_label(author))
}

fn has_file_deletion_label(store: &Store, file_event_id: &EventId, author: &EventId) -> (r: bool)
    requires
        store.wf(),
    ensures
        r == deleted_by(store@, file_event_id@, LABEL_FILE_DELETED, *author),
{
    has_label(store, file_event_id, &file_deletion_label(author))
}

// ---------------------------------------------------------------------------
// Messages
// ---------------------------------------------------------------------------

/// The leaf of a message.
pub open spec fn message_job(m: MessageEvent) -> RetireLeafJob {
    RetireLeafJob {
        frontier: Frontier {
            workspace_id: m.workspace_id,
            removal_frontier_id: m.removal_frontier_id,
        },
        created_at_ms: m.created_at_ms,
        event_id_in_minute: message_coordinate(
            m.workspace_id,
            m.author_user_id,
            m.removal_frontier_id,
            m.created_at_ms,
        ),
    }
}

/// The tombstone of a message.
pub open spec fn message_tombstone(m: MessageEvent, message_id: EventId) -> MessageTombstoneRow {
    MessageTombstoneRow {
        workspace_id: m.workspace_id,
        message_id,
        author_user_id: m.author_user_id,
        authored_minute: (m.created_at_ms as int / 60_000) as u64,
    }
}

/// A message is purged when its author deleted it.
pub open spec fn message_purged(p: Purging, message_id: EventId, m: MessageEvent) -> Purging {
    if !deleted_by(p.store, message_id@, LABEL_MESSAGE_DELETED, m.author_user_id) {
        p
    } else {
        let key = message_key_bytes(m.workspace_id, message_id);
        event_purged(
            Purging {
                content: ContentState {
                    message_tombstones: tombstone_written(
                        p.content.message_tombstones,
                        message_tombstone(m, message_id),
                    ),
                    messages: p.content.messages.remove(key),
                    ..p.content
                },
                jobs: p.jobs.push(message_job(m)),
                tally: PurgeTally {
                    tombstones: p.tally.tombstones + one_if(
                        !p.content.is_deleted(m.workspace_id, message_id),
                    ),
                    messages: p.tally.messages + one_if(p.content.messages.contains_key(key)),
                    ..p.tally
                },
                ..p
            },
            message_id@,
        )
    }
}

/// Whether a purge stands at given stores, jobs and counts.
pub open spec fn stands(
    p: Purging,
    content: ContentStore,
    store: Store,
    jobs: Seq<RetireLeafJob>,
    report: PurgeReport,
) -> bool {
    &&& content@ == p.content
    &&& store@ == p.store
    &&& jobs == p.jobs
    &&& report.holds(p.tally)
}

fn purge_deleted_message(
    content: &mut ContentStore,
    store: &mut Store,
    jobs: &mut Vec<RetireLeafJob>,
    report: &mut PurgeReport,
    message_id: &EventId,
    m: &MessageEvent,
    Ghost(p): Ghost<Purging>,
)
    requires
        old(content).wf(),
        old(store).wf(),
        stands(p, *old(content), *old(store), old(jobs)@, *old(report)),
    ensures
        final(content).wf(),
        final(store).wf(),
        stands(
            message_purged(p, *message_id, *m),
            *final(content),
            *final(store),
            final(jobs)@,
            *final(report),
        ),
{
    if !has_author_deletion_label(store, message_id, &m.author_user_id) {
        return;
    }
    jobs.push(
        RetireLeafJob {
            frontier: Frontier {
                workspace_id: m.workspace_id,
                removal_frontier_id: m.removal_frontier_id,
            },
            created_at_ms: m.created_at_ms,
            event_id_in_minute: message_event_id_in_minute(
                &m.workspace_id,
                &m.author_user_id,
                &m.removal_frontier_id,
                m.created_at_ms,
            ),
        },
    );
    let row = MessageTombstoneRow {
        workspace_id: m.workspace_id,
        message_id: *message_id,
        author_user_id: m.author_user_id,
        authored_minute: m.created_at_ms / 60_000,
    };
    if content.insert_message_tombstone(row) {
        report.tombstones_written = report.tombstones_written.saturating_add(1);
    }
    let key = message_key(&m.workspace_id, message_id);
    if content.messages.remove(key.as_slice()).is_some() {
        report.message_rows_deleted = report.message_rows_deleted.saturating_add(1);
    }
    let ghost mid = Purging {
        content: content@,
        store: store@,
        jobs: jobs@,
        tally: PurgeTally {
            tombstones: p.tally.tombstones + one_if(
                !p.content.is_deleted(m.workspace_id, *message_id),
            ),
            messages: p.tally.messages + one_if(
                p.content.messages.contains_key(message_key_bytes(m.workspace_id, *message_id)),
            ),
            ..p.tally
        },
    };
    purge_event(store, report, message_id, Ghost(mid));
}

// ---------------------------------------------------------------------------
// Reactions
// ---------------------------------------------------------------------------

/// A reaction is purged when its message was deleted: its opened row and its bytes go. A sealed
/// row is left to decryption, which drops it.
pub open spec fn reaction_purged(p: Purging, reaction_id: EventId, m: ReactionEvent) -> Purging {
    if !p.content.is_deleted(m.workspace_id, m.target_message_id) {
        p
    } else {
        let key = message_key_bytes(m.workspace_id, reaction_id);
        event_purged(
            Purging {
                content: ContentState { reactions: p.content.reactions.remove(key), ..p.content },
                tally: PurgeTally {
                    reactions: p.tally.reactions + one_if(p.content.reactions.contains_key(key)),
                    ..p.tally
                },
                ..p
            },
            reaction_id@,
        )
    }
}

fn purge_reaction_for_deleted_message(
    content: &mut ContentStore,
    store: &mut Store,
    report: &mut PurgeReport,
    reaction_id: &EventId,
    m: &ReactionEvent,
    Ghost(p): Ghost<Purging>,
)
    requires
        old(content).wf(),
        old(store).wf(),
        stands(p, *old(content), *old(store), p.jobs, *old(report)),
    ensures
        final(content).wf(),
        final(store).wf(),
        stands(
            reaction_purged(p, *reaction_id, *m),
            *final(content),
            *final(store),
            p.jobs,
            *final(report),
        ),
{
    if !content.message_tombstone_exists(&m.workspace_id, &m.target_message_id) {
        return;
    }
    let key = message_key(&m.workspace_id, reaction_id);
    if content.reactions.remove(key.as_slice()).is_some() {
        report.reaction_rows_deleted = report.reaction_rows_deleted.saturating_add(1);
    }
    let ghost mid = Purging {
        content: content@,
        store: store@,
        jobs: p.jobs,
        tally: PurgeTally {
            reactions: p.tally.reactions + one_if(
                p.content.reactions.contains_key(message_key_bytes(m.workspace_id, *reaction_id)),
            ),
            ..p.tally
        },
    };
    purge_event(store, report, reaction_id, Ghost(mid));
}

// ---------------------------------------------------------------------------
// Files
// ---------------------------------------------------------------------------

/// The leaf of a file.
pub open spec fn file_job(m: FileEvent) -> RetireLeafJob {
    RetireLeafJob {
        frontier: Frontier {
            workspace_id: m.workspace_id,
            removal_frontier_id: m.removal_frontier_id,
        },
        created_at_ms: m.created_at_ms,
        event_id_in_minute: file_coordinate(m),
    }
}

/// The slices of a file.
pub open spec fn slices_of(c: ContentState, workspace_id: EventId, file_id: EventId) -> Set<Seq<u8>> {
    with_prefix(c.file_slices.dom(), workspace_id@ + file_id@)
}

/// A file is purged when its message was deleted or its author deleted the file: its rows go,
/// and those of its slices.
pub open spec fn file_purged(p: Purging, file_event_id: EventId, m: FileEvent) -> Purging {
    if !p.content.is_deleted(m.workspace_id, m.message_id) && !deleted_by(
        p.store,
        file_event_id@,
        LABEL_FILE_DELETED,
        m.author_user_id,
    ) {
        p
    } else {
        let key = message_key_bytes(m.workspace_id, file_event_id);
        let slices = slices_of(p.content, m.workspace_id, m.file_id);
        event_purged(
            Purging {
                content: ContentState {
                    files: p.content.files.remove(key),
                    files_by_message: p.content.files_by_message.remove(
                        triple_key(m.workspace_id, m.message_id, file_event_id),
                    ),
                    files_by_file_id: p.content.files_by_file_id.remove(
                        triple_key(m.workspace_id, m.file_id, file_event_id),
                    ),
                    file_slices: without_keys(p.content.file_slices, slices),
                    ..p.content
                },
                jobs: p.jobs.push(file_job(m)),
                tally: PurgeTally {
                    files: p.tally.files + one_if(p.content.files.contains_key(key)),
                    slices: p.tally.slices + listing(slices).len(),
                    ..p.tally
                },
                ..p
            },
            file_event_id@,
        )
    }
}

fn remove_all(t: &mut Table<Mark>, prefix: &[u8]) -> (n: usize)
    requires
        old(t).wf(),
    ensures
        final(t).wf(),
        final(t)@ == without_keys(old(t)@, with_prefix(old(t)@.dom(), prefix@)),
        n == listing(with_prefix(old(t)@.dom(), prefix@)).len(),
{
    let limit: usize = usize::MAX;
    let keys = t.keys_with_prefix(prefix, limit);
    let ghost gone = with_prefix(t@.dom(), prefix@);
    let ghost all = key_views(keys@);
    let mut i: usize = 0;
    proof {
        assert(all.take(0).to_set() =~= Set::empty());
        assert(t@ =~= without_keys(t@, all.take(0).to_set()));
        assert(all.len() == keys@.len());
    }
    while i < keys.len()
        invariant
            t.wf(),
            i <= keys@.len(),
            all == key_views(keys@),
            t@ == without_keys(old(t)@, all.take(i as int).to_set()),
        decreases keys.len() - i,
    {
        let _ = t.remove(keys[i].as_slice());
        proof {
            let (a, b) = (all.take(i as int), all.take(i + 1));
            assert(b =~= a.push(keys@[i as int]@));
            a.lemma_push_to_set_commute(keys@[i as int]@);
            assert(t@ =~= without_keys(old(t)@, b.to_set()));
        }
        i = i + 1;
    }
    proof {
        assert(all.take(i as int) =~= all);
        assert(all.to_set() =~= gone);
    }
    keys.len()
}

fn purge_file_for_deleted_message_or_file_deletion(
    content: &mut ContentStore,
    store: &mut Store,
    jobs: &mut Vec<RetireLeafJob>,
    report: &mut PurgeReport,
    file_event_id: &EventId,
    m: &FileEvent,
    Ghost(p): Ghost<Purging>,
)
    requires
        old(content).wf(),
        old(store).wf(),
        stands(p, *old(content), *old(store), old(jobs)@, *old(report)),
    ensures
        final(content).wf(),
        final(store).wf(),
        stands(
            file_purged(p, *file_event_id, *m),
            *final(content),
            *final(store),
            final(jobs)@,
            *final(report),
        ),
{
    let parent_deleted = content.message_tombstone_exists(&m.workspace_id, &m.message_id);
    let self_deleted = has_file_deletion_label(store, file_event_id, &m.author_user_id);
    if !parent_deleted && !self_deleted {
        return;
    }
    jobs.push(
        RetireLeafJob {
            frontier: Frontier {
                workspace_id: m.workspace_id,
                removal_frontier_id: m.removal_frontier_id,
            },
            created_at_ms: m.created_at_ms,
            event_id_in_minute: file_event_id_in_minute(m),
        },
    );
    let key = message_key(&m.workspace_id, file_event_id);
    if content.files.remove(key.as_slice()).is_some() {
        report.file_rows_deleted = report.file_rows_deleted.saturating_add(1);
    }
    let _ = content.files_by_message.remove(
        make_triple_key(&m.workspace_id, &m.message_id, file_event_id).as_slice(),
    );
    let _ = content.files_by_file_id.remove(
        make_triple_key(&m.workspace_id, &m.file_id, file_event_id).as_slice(),
    );
    let n = remove_all(
        &mut content.file_slices,
        message_key(&m.workspace_id, &m.file_id).as_slice(),
    );
    report.file_slice_rows_deleted = report.file_slice_rows_deleted.saturating_add(n);
    let ghost mid = Purging {
        content: content@,
        store: store@,
        jobs: jobs@,
        tally: PurgeTally {
            files: p.tally.files + one_if(
                p.content.files.contains_key(message_key_bytes(m.workspace_id, *file_event_id)),
            ),
            slices: p.tally.slices + listing(
                slices_of(p.content, m.workspace_id, m.file_id),
            ).len(),
            ..p.tally
        },
    };
    purge_event(store, report, file_event_id, Ghost(mid));
}

// ---------------------------------------------------------------------------
// Slices of files
// ---------------------------------------------------------------------------

/// Some file is known under a file id.
pub open spec fn file_id_is_known(c: ContentState, workspace_id: EventId, file_id: EventId) -> bool {
    listing(with_prefix(c.files_by_file_id.dom(), workspace_id@ + file_id@)).len() > 0
}

/// Whether the file of a slice is gone: its event is purged and its file id unknown, or its
/// message was deleted. Fails where the event that it names is not a file.
pub open spec fn slice_is_orphan(p: Purging, m: FileSliceEvent) -> Result<bool, Seq<char>> {
    let events = p.store.events.events;
    if !events.contains_key(m.file_event_id@) {
        Ok(!file_id_is_known(p.content, m.workspace_id, m.file_id))
    } else {
        match decoded_file(events[m.file_event_id@].canonical_bytes) {
            Err(e) => Err(e),
            Ok(file) => Ok(p.content.is_deleted(file.workspace_id, file.message_id)),
        }
    }
}

/// A slice is purged when its file is gone.
pub open spec fn slice_purged(p: Purging, slice_event_id: EventId, m: FileSliceEvent) -> Result<
    Purging,
    Seq<char>,
> {
    match slice_is_orphan(p, m) {
        Err(e) => Err(e),
        Ok(false) => Ok(p),
        Ok(true) => {
            let key = slice_key(m.workspace_id, m.file_id, m.slice_number);
            Ok(
                event_purged(
                    Purging {
                        content: ContentState {
                            file_slices: p.content.file_slices.remove(key),
                            ..p.content
                        },
                        tally: PurgeTally {
                            slices: p.tally.slices + one_if(
                                p.content.file_slices.contains_key(key),
                            ),
                            ..p.tally
                        },
                        ..p
                    },
                    slice_event_id@,
                ),
            )
        },
    }
}

fn purge_file_slice_for_deleted_file(
    content: &mut ContentStore,
    store: &mut Store,
    report: &mut PurgeReport,
    slice_event_id: &EventId,
    m: &FileSliceEvent,
    Ghost(p): Ghost<Purging>,
) -> (r: Result<(), String>)
    requires
        old(content).wf(),
        old(store).wf(),
        stands(p, *old(content), *old(store), p.jobs, *old(report)),
    ensures
        final(content).wf(),
        final(store).wf(),
        match slice_purged(p, *slice_event_id, *m) {
            Ok(after) => r is Ok && after.jobs == p.jobs && stands(
                after,
                *final(content),
                *final(store),
                p.jobs,
                *final(report),
            ),
            Err(e) => r matches Err(x) && x@ == e,
        },
{
    let orphan = match store.events.event_bytes(&m.file_event_id) {
        None => {
            let prefix = message_key(&m.workspace_id, &m.file_id);
            let known = content.files_by_file_id.keys_with_prefix(prefix.as_slice(), 1);
            assert(key_views(known@).len() == known@.len());
            known.len() == 0
        },
        Some(bytes) => match decode_file(bytes.as_slice()) {
            Ok(file) => content.message_tombstone_exists(&file.workspace_id, &file.message_id),
            Err(e) => {
                return Err(e);
            },
        },
    };
    if !orphan {
        return Ok(());
    }
    let key = make_slice_key(&m.workspace_id, &m.file_id, m.slice_number);
    if content.file_slices.remove(key.as_slice()).is_some() {
        report.file_slice_rows_deleted = report.file_slice_rows_deleted.saturating_add(1);
    }
    let ghost mid = Purging {
        content: content@,
        store: store@,
        jobs: p.jobs,
        tally: PurgeTally {
            slices: p.tally.slices + one_if(
                p.content.file_slices.contains_key(
                    slice_key(m.workspace_id, m.file_id, m.slice_number),
                ),
            ),
            ..p.tally
        },
    };
    purge_event(store, report, slice_event_id, Ghost(mid));
    Ok(())
}

// ---------------------------------------------------------------------------
// The scan
// ---------------------------------------------------------------------------

/// A purge after one stored event is looked at, or what is wrong with the event.
pub open spec fn event_scanned(p: Purging, id: EventId) -> Result<Purging, Seq<char>> {
    let events = p.store.events.events;
    if !events.contains_key(id@) {
        Ok(p)
    } else {
        let bytes = events[id@].canonical_bytes;
        let q = Purging { tally: PurgeTally { scanned: p.tally.scanned + 1, ..p.tally }, ..p };
        if is_type(bytes, TYPE_SIGNED_MESSAGE) {
            match decoded_message(bytes) {
                Err(e) => Err(e),
                Ok(m) => Ok(message_purged(q, id, m)),
            }
        } else if is_type(bytes, TYPE_SIGNED_REACTION) {
            match decoded_reaction(bytes) {
                Err(e) => Err(e),
                Ok(m) => Ok(reaction_purged(q, id, m)),
            }
        } else if is_type(bytes, TYPE_SIGNED_FILE) {
            match decoded_file(bytes) {
                Err(e) => Err(e),
                Ok(m) => Ok(file_purged(q, id, m)),
            }
        } else if is_type(bytes, TYPE_SIGNED_FILE_SLICE) {
            match decoded_file_slice(bytes) {
                Err(e) => Err(e),
                Ok(m) => slice_purged(q, id, m),
            }
        } else {
            Ok(q)
        }
    }
}

/// A purge after the first `n` of some events are looked at, or what is wrong with one.
pub open spec fn scanned_upto(p: Purging, ids: Seq<EventId>, n: int) -> Result<Purging, Seq<char>>
    decreases n,
{
    if n <= 0 {
        Ok(p)
    } else {
        match scanned_upto(p, ids, n - 1) {
            Err(e) => Err(e),
            Ok(q) => event_scanned(q, ids[n - 1]),
        }
    }
}

proof fn lemma_scan_fails(p: Purging, ids: Seq<EventId>, m: int, n: int)
    requires
        m <= n,
        scanned_upto(p, ids, m) is Err,
    ensures
        scanned_upto(p, ids, n) == scanned_upto(p, ids, m),
    decreases n - m,
{
    if m < n {
        lemma_scan_fails(p, ids, m, n - 1);
    }
}

fn scan_event(
    content: &mut ContentStore,
    store: &mut Store,
    jobs: &mut Vec<RetireLeafJob>,
    report: &mut PurgeReport,
    id: &EventId,
    Ghost(p): Ghost<Purging>,
) -> (r: Result<(), String>)
    requires
        old(content).wf(),
        old(store).wf(),
        stands(p, *old(content), *old(store), old(jobs)@, *old(report)),
    ensures
        final(content).wf(),
        final(store).wf(),
        match event_scanned(p, *id) {
            Ok(after) => r is Ok && stands(
                after,
                *final(content),
                *final(store),
                final(jobs)@,
                *final(report),
            ),
            Err(e) => r matches Err(x) && x@ == e,
        },
{
    let bytes = match store.events.event_bytes(id) {
        Some(bytes) => bytes,
        None => {
            return Ok(());
        },
    };
    report.scanned_events = report.scanned_events.saturating_add(1);
    let ghost q = Purging { tally: PurgeTally { scanned: p.tally.scanned + 1, ..p.tally }, ..p };
    if bytes.len() == 0 {
        return Ok(());
    }
    match bytes[0] {
        TYPE_SIGNED_MESSAGE => match decode_message(bytes.as_slice()) {
            Ok(m) => {
                purge_deleted_message(content, store, jobs, report, id, &m, Ghost(q));
                Ok(())
            },
            Err(e) => Err(e),
        },
        TYPE_SIGNED_REACTION => match decode_reaction(bytes.as_slice()) {
            Ok(m) => {
                purge_reaction_for_deleted_message(content, store, report, id, &m, Ghost(q));
                Ok(())
            },
            Err(e) => Err(e),
        },
        TYPE_SIGNED_FILE => match decode_file(bytes.as_slice()) {
            Ok(m) => {
                purge_file_for_deleted_message_or_file_deletion(
                    content,
                    store,
                    jobs,
                    report,
                    id,
                    &m,
                    Ghost(q),
                );
                Ok(())
            },
            Err(e) => Err(e),
        },
        TYPE_SIGNED_FILE_SLICE => match decode_file_slice(bytes.as_slice()) {
            Ok(m) => purge_file_slice_for_deleted_file(content, store, report, id, &m, Ghost(q)),
            Err(e) => Err(e),
        },
        _ => Ok(()),
    }
}

/// The first shared events, in the order of timestamps and then ids.
pub open spec fn first_shared(s: StoreState, limit: usize) -> Seq<EventId> {
    at_most(shared_ids(s.events.events), limit).map_values(|id: Seq<u8>| id_with(id))
}

/// List the first shared events, in the order of timestamps and then ids.
pub fn list_first_shared(store: &Store, limit: usize) -> (r: Vec<EventId>)
    requires
        store.wf(),
    ensures
        r@ == first_shared(store@, limit),
{
    let r = store.events.shared_event_ids(limit);
    proof {
        assert forall|i: int| 0 <= i < r@.len() implies #[trigger] r@[i] == first_shared(
            store@,
            limit,
        )[i] by {
            assert(id_views(r@)[i] == r@[i]@);
            lemma_id_with(r@[i]);
        }
        assert(id_views(r@).len() == r@.len());
        assert(r@ =~= first_shared(store@, limit));
    }
    r
}

/// A purge of the first shared events: the queue that asked for it is cleared.
pub open spec fn purge_scanned(
    c: ContentState,
    s: StoreState,
    ids: Seq<EventId>,
) -> Result<Purging, Seq<char>> {
    let start = Purging { content: c, store: s, jobs: Seq::empty(), tally: nothing_purged() };
    match scanned_upto(start, ids, ids.len() as int) {
        Err(e) => Err(e),
        Ok(p) => Ok(
            Purging {
                content: ContentState { purge_pending: Map::empty(), ..p.content },
                ..p
            },
        ),
    }
}

// ---------------------------------------------------------------------------
// Retiring leaves
// ---------------------------------------------------------------------------

/// The vault after the first `n` leaves are retired, with the purged events and the leaves that
/// were there.
pub open spec fn jobs_retired(v: Vault, jobs: Seq<RetireLeafJob>, n: int) -> (Vault, nat, nat)
    decreases n,
{
    if n <= 0 {
        (v, 0, 0)
    } else {
        let (w, purged, leaves) = jobs_retired(v, jobs, n - 1);
        let job = jobs[n - 1];
        let (after, report) = retired(
            w,
            job.frontier,
            (job.created_at_ms as int / 60_000) as u64,
            job.event_id_in_minute,
        );
        (
            after,
            purged + report.purged_event_bytes as nat,
            leaves + one_if(report.leaf_id is Some),
        )
    }
}

/// Whether retiring the first `n` leaves stores an event.
pub open spec fn jobs_admit(v: Vault, jobs: Seq<RetireLeafJob>, n: int) -> bool
    decreases n,
{
    if n <= 0 {
        false
    } else {
        let job = jobs[n - 1];
        jobs_admit(v, jobs, n - 1) || retired(
            jobs_retired(v, jobs, n - 1).0,
            job.frontier,
            (job.created_at_ms as int / 60_000) as u64,
            job.event_id_in_minute,
        ).1.admitted_events > 0
    }
}

/// Retire some leaves. Tells whether an event was stored.
fn retire_jobs(
    history: &mut HistoryStore,
    store: &mut Store,
    jobs: &Vec<RetireLeafJob>,
    report: &mut PurgeReport,
    Ghost(t): Ghost<PurgeTally>,
) -> (stored: bool)
    requires
        old(history).wf(),
        old(store).wf(),
        old(report).holds(t),
    ensures
        final(history).wf(),
        final(store).wf(),
        final(store)@.rows == old(store)@.rows,
        ({
            let (w, purged, leaves) = jobs_retired(
                vault(*old(history), old(store).events),
                jobs@,
                jobs@.len() as int,
            );
            &&& vault(*final(history), final(store).events) == w
            &&& final(report).holds(
                PurgeTally { purged: t.purged + purged, leaves: t.leaves + leaves, ..t },
            )
        }),
        stored == jobs_admit(
            vault(*old(history), old(store).events),
            jobs@,
            jobs@.len() as int,
        ),
{
    let ghost v = vault(*history, store.events);
    let ghost mut purged: nat = 0;
    let ghost mut leaves: nat = 0;
    let mut stored = false;
    let mut i: usize = 0;
    while i < jobs.len()
        invariant
            history.wf(),
            store.wf(),
            i <= jobs@.len(),
            v == vault(*old(history), old(store).events),
            store@.rows == old(store)@.rows,
            jobs_retired(v, jobs@, i as int) == (
                vault(*history, store.events),
                purged,
                leaves,
            ),
            report.holds(PurgeTally { purged: t.purged + purged, leaves: t.leaves + leaves, ..t }),
            stored == jobs_admit(v, jobs@, i as int),
        decreases jobs.len() - i,
    {
        let job = jobs[i];
        let retired_report = retire_deleted_event_leaf(
            history,
            &mut store.events,
            job.frontier,
            job.created_at_ms,
            job.event_id_in_minute,
        );
        report.event_bytes_purged = report.event_bytes_purged.saturating_add(
            retired_report.purged_event_bytes,
        );
        if retired_report.leaf_id.is_some() {
            report.retired_message_leaves = report.retired_message_leaves.saturating_add(1);
        }
        if retired_report.admitted_events > 0 {
            stored = true;
        }
        proof {
            purged = purged + retired_report.purged_event_bytes as nat;
            leaves = leaves + one_if(retired_report.leaf_id is Some);
        }
        i = i + 1;
    }
    stored
}

/// What a run of the purge does, for the events that it looks at.
pub open spec fn purge_done(
    c: ContentState,
    v: Vault,
    s: StoreState,
    ids: Seq<EventId>,
) -> Result<(ContentState, Vault, StoreState, PurgeTally), Seq<char>> {
    match purge_scanned(c, s, ids) {
        Err(e) => Err(e),
        Ok(p) => {
            let (w, purged, leaves) = jobs_retired(
                Vault { events: p.store.events, ..v },
                p.jobs,
                p.jobs.len() as int,
            );
            Ok(
                (
                    p.content,
                    w,
                    StoreState { events: w.events, ..p.store },
                    PurgeTally {
                        purged: p.tally.purged + purged,
                        leaves: p.tally.leaves + leaves,
                        stored: jobs_admit(
                            Vault { events: p.store.events, ..v },
                            p.jobs,
                            p.jobs.len() as int,
                        ),
                        ..p.tally
                    },
                ),
            )
        },
    }
}

/// A failure as a run reports it.
pub open spec fn purge_error(e: Seq<char>) -> Seq<char> {
    "drain content purge: "@ + module_error_text(e)
}

/// What a purge leaves and returns, before events that it released are applied. A failure
/// undoes the whole purge.
pub open spec fn purge_outcome(
    c0: ContentState,
    v0: Vault,
    s0: StoreState,
    ids: Seq<EventId>,
    c1: ContentState,
    v1: Vault,
    s1: StoreState,
    r: Result<PurgeReport, String>,
) -> bool {
    match purge_done(c0, v0, s0, ids) {
        Ok((c, w, s, t)) => {
            &&& r matches Ok(report) && report.holds(t)
            &&& c1 == c
            &&& v1 == w
            &&& s1 == s
        },
        Err(e) => {
            &&& r matches Err(x) && x@ == purge_error(e)
            &&& c1 == c0
            &&& v1 == v0
            &&& s1 == s0
        },
    }
}

/// Whether a purge stores an event.
pub open spec fn purge_admits(
    c: ContentState,
    v: Vault,
    s: StoreState,
    ids: Seq<EventId>,
) -> bool {
    match purge_done(c, v, s, ids) {
        Ok((_, _, _, t)) => t.stored,
        Err(_) => false,
    }
}

/// Look at the first `limit` shared events and purge what is deleted; then retire the leaves.
/// A failure undoes the whole run. Tells beside the report whether an event was stored.
pub(crate) fn drain(
    content: &mut ContentStore,
    history: &mut HistoryStore,
    store: &mut Store,
    limit: usize,
) -> (r: (Result<PurgeReport, String>, bool))
    requires
        old(content).wf(),
        old(history).wf(),
        old(store).wf(),
    ensures
        final(content).wf(),
        final(history).wf(),
        final(store).wf(),
        purge_outcome(
            old(content)@,
            vault(*old(history), old(store).events),
            old(store)@,
            first_shared(old(store)@, limit),
            final(content)@,
            vault(*final(history), final(store).events),
            final(store)@,
            r.0,
        ),
        r.1 == purge_admits(
            old(content)@,
            vault(*old(history), old(store).events),
            old(store)@,
            first_shared(old(store)@, limit),
        ),
{
    let ids = list_first_shared(store, limit);
    let mut work = content.duplicate();
    let mut tx = store.duplicate();
    let mut jobs: Vec<RetireLeafJob> = Vec::new();
    let mut report = PurgeReport::default();
    let ghost start = Purging {
        content: content@,
        store: store@,
        jobs: Seq::empty(),
        tally: nothing_purged(),
    };
    let ghost mut p = start;
    assert(jobs@ =~= Seq::empty());
    let mut i: usize = 0;
    while i < ids.len()
        invariant
            work.wf(),
            tx.wf(),
            content.wf(),
            history.wf(),
            store.wf(),
            content@ == old(content)@,
            *history == *old(history),
            *store == *old(store),
            i <= ids@.len(),
            ids@ == first_shared(old(store)@, limit),
            start == (Purging {
                content: old(content)@,
                store: old(store)@,
                jobs: Seq::empty(),
                tally: nothing_purged(),
            }),
            scanned_upto(start, ids@, i as int) == Ok::<Purging, Seq<char>>(p),
            stands(p, work, tx, jobs@, report),
        decreases ids.len() - i,
    {
        match scan_event(&mut work, &mut tx, &mut jobs, &mut report, &ids[i], Ghost(p)) {
            Ok(_) => {},
            Err(e) => {
                proof {
                    lemma_scan_fails(start, ids@, i + 1, ids@.len() as int);
                }
                return (Err(prefixed("drain content purge: ", module_error(e))), false);
            },
        }
        proof {
            p = scanned_upto(start, ids@, i + 1)->Ok_0;
        }
        i = i + 1;
    }
    work.purge_pending = Table::new();
    *content = work;
    *store = tx;
    let stored = retire_jobs(history, store, &jobs, &mut report, Ghost(p.tally));
    (Ok(report), stored)
}

/// Work of the purge worker.
#[derive(Debug, Clone, Copy, PartialEq, Eq)]
pub enum Work {
    /// Look at the first `limit` shared events.
    Drain { limit: usize },
}

/// What a run leaves and returns. Where a retired leaf left events to be stored, the events that
/// are ready then are applied; history and content stay as the purge left them.
pub open spec fn run_done<R: EventRegistry>(
    registry: &R,
    c0: ContentState,
    v0: Vault,
    s0: StoreState,
    ids: Seq<EventId>,
    c1: ContentState,
    v1: Vault,
    s1: StoreState,
    r: Result<PurgeReport, String>,
) -> bool {
    if !purge_admits(c0, v0, s0, ids) {
        purge_outcome(c0, v0, s0, ids, c1, v1, s1, r)
    } else {
        &&& v1.events == s1.events
        &&& exists|v: Vault, s: StoreState, q: Result<PurgeReport, String>, d: Result<
            ApplyReadyReport,
            String,
        >|
            #![trigger purge_outcome(c0, v0, s0, ids, c1, v, s, q), ready_applied(registry, s, s1, d)]
            purge_outcome(c0, v0, s0, ids, c1, v, s, q) && v1.history == v.history
                && ready_applied(registry, s, s1, d) && r == after_ready(q, d)
    }
}

/// Run one unit of work.
pub fn run<R: EventRegistry>(
    content: &mut ContentStore,
    history: &mut HistoryStore,
    store: &mut Store,
    registry: &R,
    work: Work,
) -> (r: Result<PurgeReport, String>)
    requires
        old(content).wf(),
        old(history).wf(),
        old(store).wf(),
    ensures
        final(content).wf(),
        final(history).wf(),
        final(store).wf(),
        work matches Work::Drain { limit } && run_done(
            registry,
            old(content)@,
            vault(*old(history), old(store).events),
            old(store)@,
            first_shared(old(store)@, limit),
            final(content)@,
            vault(*final(history), final(store).events),
            final(store)@,
            r,
        ),
{
    match work {
        Work::Drain { limit } => {
            let (done, stored) = drain(content, history, store, limit);
            if !stored {
                return done;
            }
            let ghost mid = store@;
            let applied = events::run(
                store,
                registry,
                DrainUntilIdle { batch_size: DEFAULT_READY_BATCH },
            );
            assert(ready_applied(registry, mid, store@, applied));
            match done {
                Err(e) => Err(e),
                Ok(report) => match applied {
                    Err(e) => Err(e),
                    Ok(_) => Ok(report),
                },
            }
        },
    }
}

// ---------------------------------------------------------------------------
// Laws
// ---------------------------------------------------------------------------

/// A message that only others tried to delete stays as it is.
pub proof fn law_only_the_author_deletes_a_message(p: Purging, message_id: EventId, m: MessageEvent)
    requires
        !deleted_by(p.store, message_id@, LABEL_MESSAGE_DELETED, m.author_user_id),
    ensures
        message_purged(p, message_id, m) == p,
{
}

/// A message that its author deleted is gone: its row, its bytes; its tombstone stays, and its
/// leaf is to be retired.
pub proof fn law_deleted_message_is_purged(p: Purging, message_id: EventId, m: MessageEvent)
    requires
        deleted_by(p.store, message_id@, LABEL_MESSAGE_DELETED, m.author_user_id),
    ensures
        ({
            let after = message_purged(p, message_id, m);
            &&& after.content.is_deleted(m.workspace_id, message_id)
            &&& !after.content.messages.contains_key(
                message_key_bytes(m.workspace_id, message_id),
            )
            &&& !after.store.events.events.contains_key(message_id@)
            &&& after.jobs.last() == message_job(m)
            &&& after.store.events.labels == p.store.events.labels
        }),
{
}

/// What hangs on a deleted message goes with it.
pub proof fn law_reaction_follows_its_message(p: Purging, reaction_id: EventId, m: ReactionEvent)
    requires
        p.content.is_deleted(m.workspace_id, m.target_message_id),
    ensures
        ({
            let after = reaction_purged(p, reaction_id, m);
            &&& !after.content.reactions.contains_key(
                message_key_bytes(m.workspace_id, reaction_id),
            )
            &&& after.content.sealed_reactions == p.content.sealed_reactions
            &&& !after.store.events.events.contains_key(reaction_id@)
        }),
{
}

/// A file goes with its message, or when its author deleted it: its rows, the rows of its
/// slices, and its bytes; its leaf is to be retired.
pub proof fn law_deleted_file_is_purged(p: Purging, file_event_id: EventId, m: FileEvent)
    requires
        p.content.is_deleted(m.workspace_id, m.message_id) || deleted_by(
            p.store,
            file_event_id@,
            LABEL_FILE_DELETED,
            m.author_user_id,
        ),
    ensures
        ({
            let after = file_purged(p, file_event_id, m);
            &&& !after.content.files.contains_key(message_key_bytes(m.workspace_id, file_event_id))
            &&& slices_of(after.content, m.workspace_id, m.file_id) == Set::<Seq<u8>>::empty()
            &&& !after.store.events.events.contains_key(file_event_id@)
            &&& after.jobs.last() == file_job(m)
            &&& after.store.events.labels == p.store.events.labels
        }),
{
    assert(slices_of(
        file_purged(p, file_event_id, m).content,
        m.workspace_id,
        m.file_id,
    ) =~= Set::<Seq<u8>>::empty());
}

/// A slice whose file is gone goes too.
pub proof fn law_orphan_slice_is_purged(p: Purging, slice_event_id: EventId, m: FileSliceEvent)
    requires
        slice_is_orphan(p, m) == Ok::<bool, Seq<char>>(true),
    ensures
        slice_purged(p, slice_event_id, m) matches Ok(after) && !after.content.file_slices.contains_key(
            slice_key(m.workspace_id, m.file_id, m.slice_number),
        ) && !after.store.events.events.contains_key(slice_event_id@),
{
}

/// The minute that the leaf of a job lies in.
pub open spec fn job_minute(job: RetireLeafJob) -> u64 {
    (job.created_at_ms as int / 60_000) as u64
}

/// Neither the root of a frontier nor a kept row leads to a leaf, and the leaf is not kept.
pub open spec fn leaf_is_gone(h: HistoryState, f: Frontier, minute: u64, leaf: EventId) -> bool {
    &&& !h.has_root(f)
    &&& !h.keeps(f, leaf_coord(minute, leaf))
    &&& !covered(h, f, minute, leaf)
}

/// A leaf that was kept is either kept still or gone for good, and gone if one of the retired
/// leaves is it.
proof fn lemma_leaf_kept_or_gone(
    v: Vault,
    jobs: Seq<RetireLeafJob>,
    n: int,
    f: Frontier,
    created_at_ms: u64,
    leaf: EventId,
)
    requires
        valid_history(v.history),
        0 <= n <= jobs.len(),
        v.history.keeps(f, leaf_coord((created_at_ms as int / 60_000) as u64, leaf)),
    ensures
        ({
            let h = jobs_retired(v, jobs, n).0.history;
            let minute = (created_at_ms as int / 60_000) as u64;
            let retires = exists|i: int|
                0 <= i < n && (#[trigger] jobs[i]).frontier == f && job_minute(jobs[i]) == minute
                    && jobs[i].event_id_in_minute == leaf;
            &&& valid_history(h)
            &&& retires ==> leaf_is_gone(h, f, minute, leaf)
            &&& !retires ==> h.keeps(f, leaf_coord(minute, leaf))
        }),
    decreases n,
{
    let minute = (created_at_ms as int / 60_000) as u64;
    if n > 0 {
        lemma_leaf_kept_or_gone(v, jobs, n - 1, f, created_at_ms, leaf);
        let w = jobs_retired(v, jobs, n - 1).0;
        let job = jobs[n - 1];
        let h = jobs_retired(v, jobs, n).0.history;
        assert(h == retired(
            w,
            job.frontier,
            job_minute(job),
            job.event_id_in_minute,
        ).0.history);
        let earlier = exists|i: int|
            0 <= i < n - 1 && (#[trigger] jobs[i]).frontier == f && job_minute(jobs[i]) == minute
                && jobs[i].event_id_in_minute == leaf;
        let now = job.frontier == f && job_minute(job) == minute && job.event_id_in_minute == leaf;
        if earlier {
            law_retirement_uncovers_for_good(
                w,
                job.frontier,
                job_minute(job),
                job.event_id_in_minute,
                f,
                minute,
                leaf,
            );
        } else {
            law_leaf_stays_until_it_is_retired(
                w,
                job.frontier,
                job_minute(job),
                job.event_id_in_minute,
                f,
                minute,
                leaf,
            );
        }
        if h.keeps(f, leaf_coord(minute, leaf)) {
            lemma_kept_leaf_is_covered(h, f, minute, leaf);
        }
        if now {
            assert(jobs[n - 1].frontier == f);
        }
        if exists|i: int|
            0 <= i < n && (#[trigger] jobs[i]).frontier == f && job_minute(jobs[i]) == minute
                && jobs[i].event_id_in_minute == leaf {
            let i = choose|i: int|
                0 <= i < n && (#[trigger] jobs[i]).frontier == f && job_minute(jobs[i]) == minute
                    && jobs[i].event_id_in_minute == leaf;
            assert(i == n - 1 || earlier);
        }
    }
}

/// Every leaf that is to be retired is gone afterwards, not the first one only: it is not kept,
/// and nothing that is kept leads to it. Every other kept leaf stays.
pub proof fn law_every_leaf_is_retired(
    v: Vault,
    jobs: Seq<RetireLeafJob>,
    f: Frontier,
    created_at_ms: u64,
    leaf: EventId,
)
    requires
        valid_history(v.history),
        v.history.keeps(f, leaf_coord((created_at_ms as int / 60_000) as u64, leaf)),
    ensures
        ({
            let h = jobs_retired(v, jobs, jobs.len() as int).0.history;
            let minute = (created_at_ms as int / 60_000) as u64;
            let retires = exists|i: int|
                0 <= i < jobs.len() && (#[trigger] jobs[i]).frontier == f
                    && jobs[i].created_at_ms as int / 60_000 == minute
                    && jobs[i].event_id_in_minute == leaf;
            &&& retires ==> !h.has_root(f) && !h.keeps(f, leaf_coord(minute, leaf)) && !covered(
                h,
                f,
                minute,
                leaf,
            )
            &&& !retires ==> h.keeps(f, leaf_coord(minute, leaf))
        }),
{
    lemma_leaf_kept_or_gone(v, jobs, jobs.len() as int, f, created_at_ms, leaf);
    let minute = (created_at_ms as int / 60_000) as u64;
    if exists|i: int|
        0 <= i < jobs.len() && (#[trigger] jobs[i]).frontier == f && jobs[i].created_at_ms as int
            / 60_000 == minute && jobs[i].event_id_in_minute == leaf {
        let i = choose|i: int|
            0 <= i < jobs.len() && (#[trigger] jobs[i]).frontier == f
                && jobs[i].created_at_ms as int / 60_000 == minute && jobs[i].event_id_in_minute
                == leaf;
        assert(job_minute(jobs[i]) == minute);
    }
    if exists|i: int|
        0 <= i < jobs.len() && (#[trigger] jobs[i]).frontier == f && job_minute(jobs[i]) == minute
            && jobs[i].event_id_in_minute == leaf {
        let i = choose|i: int|
            0 <= i < jobs.len() && (#[trigger] jobs[i]).frontier == f && job_minute(jobs[i])
                == minute && jobs[i].event_id_in_minute == leaf;
        assert(jobs[i].created_at_ms as int / 60_000 == minute);
    }
}

/// Every retired leaf counts: where all the leaves are kept and differ, there are as many
/// retirements as leaves.
pub proof fn law_every_retired_leaf_counts(v: Vault, jobs: Seq<RetireLeafJob>, n: int)
    requires
        valid_history(v.history),
        0 <= n <= jobs.len(),
        forall|i: int|
            0 <= i < n ==> v.history.keeps(
                (#[trigger] jobs[i]).frontier,
                leaf_coord((jobs[i].created_at_ms as int / 60_000) as u64, jobs[i].event_id_in_minute),
            ),
        forall|i: int, j: int|
            0 <= i < j < n ==> (#[trigger] jobs[i]).frontier != (#[trigger] jobs[j]).frontier
                || jobs[i].created_at_ms as int / 60_000 != jobs[j].created_at_ms as int / 60_000
                || jobs[i].event_id_in_minute != jobs[j].event_id_in_minute,
    ensures
        jobs_retired(v, jobs, n).2 == n,
    decreases n,
{
    if n > 0 {
        law_every_retired_leaf_counts(v, jobs, n - 1);
        let job = jobs[n - 1];
        lemma_leaf_kept_or_gone(
            v,
            jobs,
            n - 1,
            job.frontier,
            job.created_at_ms,
            job.event_id_in_minute,
        );
    }
}

// What a scan does to everything that it does not purge.

spec fn scan_grows(p: Purging, q: Purging) -> bool {
    &&& q.store.events.labels == p.store.events.labels
    &&& p.jobs.len() <= q.jobs.len()
    &&& q.jobs.take(p.jobs.len() as int) == p.jobs
    &&& forall|k: Seq<u8>| #[trigger]
        p.content.message_tombstones.contains_key(k) ==> q.content.message_tombstones.contains_key(
            k,
        )
    &&& forall|k: Seq<u8>| #[trigger]
        q.store.events.events.contains_key(k) ==> p.store.events.events.contains_key(k)
    &&& forall|k: Seq<u8>| #[trigger]
        q.content.messages.contains_key(k) ==> p.content.messages.contains_key(k)
    &&& forall|k: Seq<u8>| #[trigger]
        q.content.reactions.contains_key(k) ==> p.content.reactions.contains_key(k)
    &&& forall|k: Seq<u8>| #[trigger]
        q.content.files.contains_key(k) ==> p.content.files.contains_key(k)
    &&& forall|k: Seq<u8>| #[trigger]
        q.content.file_slices.contains_key(k) ==> p.content.file_slices.contains_key(k)
}

spec fn scan_spares(p: Purging, q: Purging, x: EventId) -> bool {
    &&& q.store.events.events.contains_key(x@) == p.store.events.events.contains_key(x@)
    &&& q.store.events.events[x@] == p.store.events.events[x@]
    &&& forall|w: EventId|
        q.content.messages.contains_key(#[trigger] message_key_bytes(w, x))
            == p.content.messages.contains_key(message_key_bytes(w, x))
    &&& forall|w: EventId|
        q.content.reactions.contains_key(#[trigger] message_key_bytes(w, x))
            == p.content.reactions.contains_key(message_key_bytes(w, x))
    &&& forall|w: EventId|
        q.content.message_tombstones.contains_key(#[trigger] message_key_bytes(w, x))
            == p.content.message_tombstones.contains_key(message_key_bytes(w, x))
}

proof fn lemma_keys_differ(v: EventId, x: EventId, w: EventId, y: EventId)
    requires
        message_key_bytes(v, x) == message_key_bytes(w, y),
    ensures
        x == y,
{
    assert(message_key_bytes(v, x).skip(32) =~= x@);
    assert(message_key_bytes(w, y).skip(32) =~= y@);
    lemma_id_ext(x, y);
}

proof fn lemma_event_scanned(p: Purging, id: EventId)
    requires
        event_scanned(p, id) is Ok,
    ensures
        scan_grows(p, event_scanned(p, id)->Ok_0),
        forall|x: EventId| x != id ==> #[trigger] scan_spares(p, event_scanned(p, id)->Ok_0, x),
{
    let q = event_scanned(p, id)->Ok_0;
    assert(q.jobs.take(p.jobs.len() as int) =~= p.jobs);
    assert forall|x: EventId| x != id implies #[trigger] scan_spares(p, q, x) by {
        if x@ == id@ {
            lemma_id_ext(x, id);
        }
        assert forall|w: EventId|
            q.content.messages.contains_key(#[trigger] message_key_bytes(w, x))
                == p.content.messages.contains_key(message_key_bytes(w, x))
            && q.content.reactions.contains_key(message_key_bytes(w, x))
                == p.content.reactions.contains_key(message_key_bytes(w, x))
            && q.content.message_tombstones.contains_key(message_key_bytes(w, x))
                == p.content.message_tombstones.contains_key(message_key_bytes(w, x)) by {
            assert forall|v: EventId| #[trigger] message_key_bytes(v, id)
                != message_key_bytes(w, x) by {
                if message_key_bytes(v, id) == message_key_bytes(w, x) {
                    lemma_keys_differ(v, id, w, x);
                }
            }
        }
    }
}

proof fn lemma_scan_between(p: Purging, ids: Seq<EventId>, i: int, n: int)
    requires
        0 <= i <= n <= ids.len(),
        scanned_upto(p, ids, n) is Ok,
    ensures
        scanned_upto(p, ids, i) is Ok,
        scan_grows(scanned_upto(p, ids, i)->Ok_0, scanned_upto(p, ids, n)->Ok_0),
        forall|x: EventId|
            (forall|j: int| i <= j < n ==> #[trigger] ids[j] != x) ==> #[trigger] scan_spares(
                scanned_upto(p, ids, i)->Ok_0,
                scanned_upto(p, ids, n)->Ok_0,
                x,
            ),
    decreases n - i,
{
    if i < n {
        lemma_scan_between(p, ids, i, n - 1);
        let a = scanned_upto(p, ids, i)->Ok_0;
        let b = scanned_upto(p, ids, n - 1)->Ok_0;
        let c = scanned_upto(p, ids, n)->Ok_0;
        lemma_event_scanned(b, ids[n - 1]);
        assert(c.jobs.take(a.jobs.len() as int) =~= a.jobs) by {
            assert(c.jobs.take(b.jobs.len() as int).take(a.jobs.len() as int) =~= c.jobs.take(
                a.jobs.len() as int,
            ));
        }
        assert forall|x: EventId|
            (forall|j: int| i <= j < n ==> #[trigger] ids[j] != x) implies #[trigger] scan_spares(
            a,
            c,
            x,
        ) by {
            assert(ids[n - 1] != x);
            assert(forall|j: int| i <= j < n - 1 ==> #[trigger] ids[j] != x);
            assert(scan_spares(a, b, x));
            assert(scan_spares(b, c, x));
            assert forall|w: EventId|
                c.content.messages.contains_key(#[trigger] message_key_bytes(w, x))
                    == a.content.messages.contains_key(message_key_bytes(w, x))
                && c.content.reactions.contains_key(message_key_bytes(w, x))
                    == a.content.reactions.contains_key(message_key_bytes(w, x))
                && c.content.message_tombstones.contains_key(message_key_bytes(w, x))
                    == a.content.message_tombstones.contains_key(message_key_bytes(w, x)) by {
                assert(b.content.messages.contains_key(message_key_bytes(w, x))
                    == a.content.messages.contains_key(message_key_bytes(w, x)));
            }
        }
    } else {
        let a = scanned_upto(p, ids, i);
        if a is Ok {
            assert((a->Ok_0).jobs.take((a->Ok_0).jobs.len() as int) =~= (a->Ok_0).jobs);
        }
    }
}

/// Where a purge that succeeds stands right in front of an event and right behind it, and what it
/// ends with.
proof fn lemma_at_its_turn(c: ContentState, s: StoreState, ids: Seq<EventId>, i: int) -> (r: (
    Purging,
    Purging,
    Purging,
))
    requires
        0 <= i < ids.len(),
        ids.no_duplicates(),
        purge_scanned(c, s, ids) is Ok,
    ensures
        event_scanned(r.0, ids[i]) == Ok::<Purging, Seq<char>>(r.1),
        purge_scanned(c, s, ids) == Ok::<Purging, Seq<char>>(
            Purging {
                content: ContentState { purge_pending: Map::empty(), ..r.2.content },
                ..r.2
            },
        ),
        r.0.store.events.events.contains_key(ids[i]@) == s.events.events.contains_key(ids[i]@),
        r.0.store.events.events[ids[i]@] == s.events.events[ids[i]@],
        r.0.store.events.labels == s.events.labels,
        forall|w: EventId|
            r.0.content.messages.contains_key(#[trigger] message_key_bytes(w, ids[i]))
                == c.messages.contains_key(message_key_bytes(w, ids[i])),
        forall|w: EventId|
            r.0.content.reactions.contains_key(#[trigger] message_key_bytes(w, ids[i]))
                == c.reactions.contains_key(message_key_bytes(w, ids[i])),
        forall|k: Seq<u8>| #[trigger]
            c.message_tombstones.contains_key(k) ==> r.0.content.message_tombstones.contains_key(
                k,
            ),
        scan_grows(r.0, r.2),
        scan_grows(r.1, r.2),
        scan_spares(r.1, r.2, ids[i]),
{
    let start = Purging { content: c, store: s, jobs: Seq::empty(), tally: nothing_purged() };
    let n = ids.len() as int;
    lemma_scan_between(start, ids, 0, n);
    lemma_scan_between(start, ids, i, n);
    lemma_scan_between(start, ids, i + 1, n);
    lemma_scan_between(start, ids, 0, i);
    let (a, b, q) = (
        scanned_upto(start, ids, i)->Ok_0,
        scanned_upto(start, ids, i + 1)->Ok_0,
        scanned_upto(start, ids, n)->Ok_0,
    );
    assert forall|j: int| 0 <= j < i implies #[trigger] ids[j] != ids[i] by {
    }
    assert forall|j: int| i + 1 <= j < n implies #[trigger] ids[j] != ids[i] by {
    }
    assert(scan_spares(start, a, ids[i]));
    assert(scan_spares(b, q, ids[i]));
    (a, b, q)
}

/// A purge that succeeds reaches every message that its author deleted, wherever it stands among
/// the events: its bytes and its row are gone, its tombstone is kept, and its leaf, where it was
/// kept, is gone for good.
pub proof fn law_purge_reaches_every_deleted_message(
    c: ContentState,
    v: Vault,
    s: StoreState,
    ids: Seq<EventId>,
    i: int,
    m: MessageEvent,
)
    requires
        0 <= i < ids.len(),
        ids.no_duplicates(),
        valid_history(v.history),
        purge_done(c, v, s, ids) is Ok,
        s.events.events.contains_key(ids[i]@),
        s.events.events[ids[i]@].canonical_bytes.len() > 0,
        s.events.events[ids[i]@].canonical_bytes[0] == TYPE_SIGNED_MESSAGE,
        decoded_message(s.events.events[ids[i]@].canonical_bytes) == Ok::<MessageEvent, Seq<char>>(
            m,
        ),
        s.events.labels_of(ids[i]@).contains(
            deletion_label_of(LABEL_MESSAGE_DELETED, m.author_user_id),
        ),
    ensures
        ({
            let (after, w, store, _) = purge_done(c, v, s, ids)->Ok_0;
            let key = message_key_bytes(m.workspace_id, ids[i]);
            let f = Frontier {
                workspace_id: m.workspace_id,
                removal_frontier_id: m.removal_frontier_id,
            };
            let minute = (m.created_at_ms as int / 60_000) as u64;
            let leaf = message_coordinate(
                m.workspace_id,
                m.author_user_id,
                m.removal_frontier_id,
                m.created_at_ms,
            );
            &&& after.message_tombstones.contains_key(key)
            &&& !after.messages.contains_key(key)
            &&& (purge_scanned(c, s, ids)->Ok_0).store.events.events.contains_key(ids[i]@) == false
            &&& v.history.keeps(f, leaf_coord(minute, leaf)) ==> !w.history.has_root(f)
                && !w.history.keeps(f, leaf_coord(minute, leaf)) && !covered(
                w.history,
                f,
                minute,
                leaf,
            )
        }),
{
    let (a, b, q) = lemma_at_its_turn(c, s, ids, i);
    assert(deleted_by(a.store, ids[i]@, LABEL_MESSAGE_DELETED, m.author_user_id));
    let job = message_job(m);
    assert(b.jobs.last() == job);
    assert(q.jobs[b.jobs.len() - 1] == q.jobs.take(b.jobs.len() as int)[b.jobs.len() - 1]);
    assert(q.jobs[b.jobs.len() - 1] == job);
    let at = Vault { events: q.store.events, ..v };
    let minute = (m.created_at_ms as int / 60_000) as u64;
    if v.history.keeps(job.frontier, leaf_coord(minute, job.event_id_in_minute)) {
        law_every_leaf_is_retired(
            at,
            q.jobs,
            job.frontier,
            m.created_at_ms,
            job.event_id_in_minute,
        );
        assert(q.jobs[b.jobs.len() - 1].frontier == job.frontier);
    }
}

/// The same of files: one whose message was deleted, or that its author deleted, is gone with its
/// rows, and so is its leaf.
pub proof fn law_purge_reaches_every_deleted_file(
    c: ContentState,
    v: Vault,
    s: StoreState,
    ids: Seq<EventId>,
    i: int,
    m: FileEvent,
)
    requires
        0 <= i < ids.len(),
        ids.no_duplicates(),
        valid_history(v.history),
        purge_done(c, v, s, ids) is Ok,
        s.events.events.contains_key(ids[i]@),
        s.events.events[ids[i]@].canonical_bytes.len() > 0,
        s.events.events[ids[i]@].canonical_bytes[0] == TYPE_SIGNED_FILE,
        decoded_file(s.events.events[ids[i]@].canonical_bytes) == Ok::<FileEvent, Seq<char>>(m),
        c.message_tombstones.contains_key(message_key_bytes(m.workspace_id, m.message_id))
            || s.events.labels_of(ids[i]@).contains(
            deletion_label_of(LABEL_FILE_DELETED, m.author_user_id),
        ),
    ensures
        ({
            let (after, w, store, _) = purge_done(c, v, s, ids)->Ok_0;
            let f = Frontier {
                workspace_id: m.workspace_id,
                removal_frontier_id: m.removal_frontier_id,
            };
            let minute = (m.created_at_ms as int / 60_000) as u64;
            let leaf = file_coordinate(m);
            &&& !after.files.contains_key(message_key_bytes(m.workspace_id, ids[i]))
            &&& forall|k: Seq<u8>|
                has_prefix(k, m.workspace_id@ + m.file_id@)
                    ==> !(#[trigger] after.file_slices.contains_key(k))
            &&& (purge_scanned(c, s, ids)->Ok_0).store.events.events.contains_key(ids[i]@) == false
            &&& v.history.keeps(f, leaf_coord(minute, leaf)) ==> !w.history.has_root(f)
                && !w.history.keeps(f, leaf_coord(minute, leaf)) && !covered(
                w.history,
                f,
                minute,
                leaf,
            )
        }),
{
    let (a, b, q) = lemma_at_its_turn(c, s, ids, i);
    let key = message_key_bytes(m.workspace_id, ids[i]);
    assert(a.content.is_deleted(m.workspace_id, m.message_id) || deleted_by(
        a.store,
        ids[i]@,
        LABEL_FILE_DELETED,
        m.author_user_id,
    ));
    let job = file_job(m);
    assert(b.jobs.last() == job);
    assert(q.jobs[b.jobs.len() - 1] == q.jobs.take(b.jobs.len() as int)[b.jobs.len() - 1]);
    assert(!b.content.files.contains_key(key));
    let gone = slices_of(a.content, m.workspace_id, m.file_id);
    assert forall|k: Seq<u8>| has_prefix(k, m.workspace_id@ + m.file_id@) implies !(
    #[trigger] q.content.file_slices.contains_key(k)) by {
        if q.content.file_slices.contains_key(k) {
            assert(b.content.file_slices.contains_key(k));
            assert(a.content.file_slices.contains_key(k));
            assert(gone.contains(k));
        }
    }
    let at = Vault { events: q.store.events, ..v };
    let minute = (m.created_at_ms as int / 60_000) as u64;
    if v.history.keeps(job.frontier, leaf_coord(minute, job.event_id_in_minute)) {
        law_every_leaf_is_retired(
            at,
            q.jobs,
            job.frontier,
            m.created_at_ms,
            job.event_id_in_minute,
        );
        assert(q.jobs[b.jobs.len() - 1].frontier == job.frontier);
    }
}

/// A purge that succeeds reaches every reaction to a message that was deleted before: its bytes
/// and its row are gone.
pub proof fn law_purge_reaches_every_stranded_reaction(
    c: ContentState,
    s: StoreState,
    ids: Seq<EventId>,
    i: int,
    m: ReactionEvent,
)
    requires
        0 <= i < ids.len(),
        ids.no_duplicates(),
        purge_scanned(c, s, ids) is Ok,
        s.events.events.contains_key(ids[i]@),
        s.events.events[ids[i]@].canonical_bytes.len() > 0,
        s.events.events[ids[i]@].canonical_bytes[0] == TYPE_SIGNED_REACTION,
        decoded_reaction(s.events.events[ids[i]@].canonical_bytes) == Ok::<
            ReactionEvent,
            Seq<char>,
        >(m),
        c.message_tombstones.contains_key(message_key_bytes(m.workspace_id, m.target_message_id)),
    ensures
        ({
            let after = purge_scanned(c, s, ids)->Ok_0;
            &&& !after.content.reactions.contains_key(message_key_bytes(m.workspace_id, ids[i]))
            &&& !after.store.events.events.contains_key(ids[i]@)
        }),
{
    let (a, b, q) = lemma_at_its_turn(c, s, ids, i);
    assert(a.content.is_deleted(m.workspace_id, m.target_message_id));
    assert(!b.content.reactions.contains_key(message_key_bytes(m.workspace_id, ids[i])));
}

/// A purge spares what nobody deleted: a message without its author's label keeps its bytes and
/// its row and gets no tombstone.
pub proof fn law_purge_spares_other_messages(
    c: ContentState,
    s: StoreState,
    ids: Seq<EventId>,
    i: int,
    m: MessageEvent,
)
    requires
        0 <= i < ids.len(),
        ids.no_duplicates(),
        purge_scanned(c, s, ids) is Ok,
        s.events.events.contains_key(ids[i]@),
        s.events.events[ids[i]@].canonical_bytes.len() > 0,
        s.events.events[ids[i]@].canonical_bytes[0] == TYPE_SIGNED_MESSAGE,
        decoded_message(s.events.events[ids[i]@].canonical_bytes) == Ok::<MessageEvent, Seq<char>>(
            m,
        ),
        !s.events.labels_of(ids[i]@).contains(
            deletion_label_of(LABEL_MESSAGE_DELETED, m.author_user_id),
        ),
    ensures
        ({
            let after = purge_scanned(c, s, ids)->Ok_0;
            let key = message_key_bytes(m.workspace_id, ids[i]);
            &&& after.store.events.events.contains_key(ids[i]@)
            &&& after.store.events.events[ids[i]@] == s.events.events[ids[i]@]
            &&& after.content.messages.contains_key(key) == c.messages.contains_key(key)
        }),
{
    let (a, b, q) = lemma_at_its_turn(c, s, ids, i);
    assert(!deleted_by(a.store, ids[i]@, LABEL_MESSAGE_DELETED, m.author_user_id));
    let key = message_key_bytes(m.workspace_id, ids[i]);
    assert(b.content == a.content);
    assert(q.content.messages.contains_key(key) == b.content.messages.contains_key(key));
}

/// A purge spares every event that is none of the events it looks at, and every one that is
/// neither a message, a reaction, a file nor a slice.
pub proof fn law_purge_spares_other_events(
    c: ContentState,
    s: StoreState,
    ids: Seq<EventId>,
    x: EventId,
)
    requires
        ids.no_duplicates(),
        purge_scanned(c, s, ids) is Ok,
        s.events.events.contains_key(x@),
        !ids.contains(x) || s.events.events[x@].canonical_bytes.len() == 0 || {
            let tag = s.events.events[x@].canonical_bytes[0];
            tag != TYPE_SIGNED_MESSAGE && tag != TYPE_SIGNED_REACTION && tag != TYPE_SIGNED_FILE
                && tag != TYPE_SIGNED_FILE_SLICE
        },
    ensures
        (purge_scanned(c, s, ids)->Ok_0).store.events.events.contains_key(x@),
        (purge_scanned(c, s, ids)->Ok_0).store.events.events[x@] == s.events.events[x@],
{
    if ids.contains(x) {
        let i = choose|i: int| 0 <= i < ids.len() && ids[i] == x;
        let (a, b, q) = lemma_at_its_turn(c, s, ids, i);
    } else {
        let start = Purging { content: c, store: s, jobs: Seq::empty(), tally: nothing_purged() };
        lemma_scan_between(start, ids, 0, ids.len() as int);
        let q = scanned_upto(start, ids, ids.len() as int)->Ok_0;
        assert forall|j: int| 0 <= j < ids.len() implies #[trigger] ids[j] != x by {
            assert(ids.contains(ids[j]));
        }
        assert(scan_spares(start, q, x));
    }
}

/// A leaf that is gone stays gone, whichever leaves are retired.
pub proof fn lemma_gone_stays_gone(
    v: Vault,
    jobs: Seq<RetireLeafJob>,
    n: int,
    f: Frontier,
    minute: u64,
    leaf: EventId,
)
    requires
        valid_history(v.history),
        0 <= n <= jobs.len(),
        leaf_is_gone(v.history, f, minute, leaf),
    ensures
        valid_history(jobs_retired(v, jobs, n).0.history),
        leaf_is_gone(jobs_retired(v, jobs, n).0.history, f, minute, leaf),
    decreases n,
{
    if n > 0 {
        lemma_gone_stays_gone(v, jobs, n - 1, f, minute, leaf);
        let w = jobs_retired(v, jobs, n - 1).0;
        let job = jobs[n - 1];
        law_retirement_uncovers_for_good(
            w,
            job.frontier,
            job_minute(job),
            job.event_id_in_minute,
            f,
            minute,
            leaf,
        );
        let h = jobs_retired(v, jobs, n).0.history;
        if h.keeps(f, leaf_coord(minute, leaf)) {
            lemma_kept_leaf_is_covered(h, f, minute, leaf);
        }
    }
}

/// What a scan does with a slice: it goes, row and bytes, where its file is purged and no file is
/// known under its file id, or where the message of its file was deleted. It stays otherwise.
pub proof fn law_orphan_slices_go(p: Purging, id: EventId, m: FileSliceEvent)
    requires
        p.content.files_by_file_id.dom().finite(),
        p.store.events.events.contains_key(id@),
        p.store.events.events[id@].canonical_bytes.len() > 0,
        p.store.events.events[id@].canonical_bytes[0] == TYPE_SIGNED_FILE_SLICE,
        decoded_file_slice(p.store.events.events[id@].canonical_bytes) == Ok::<
            FileSliceEvent,
            Seq<char>,
        >(m),
        p.store.events.events.contains_key(m.file_event_id@) ==> decoded_file(
            p.store.events.events[m.file_event_id@].canonical_bytes,
        ) is Ok,
    ensures
        ({
            let events = p.store.events.events;
            let gone = if events.contains_key(m.file_event_id@) {
                let file = decoded_file(events[m.file_event_id@].canonical_bytes)->Ok_0;
                p.content.message_tombstones.contains_key(file.workspace_id@ + file.message_id@)
            } else {
                forall|k: Seq<u8>| #[trigger]
                    p.content.files_by_file_id.contains_key(k) ==> !has_prefix(
                        k,
                        m.workspace_id@ + m.file_id@,
                    )
            };
            event_scanned(p, id) matches Ok(q) && {
                &&& gone ==> !q.content.file_slices.contains_key(
                    slice_key(m.workspace_id, m.file_id, m.slice_number),
                ) && !q.store.events.events.contains_key(id@)
                &&& !gone ==> q.content == p.content && q.store == p.store
                &&& q.content.message_tombstones == p.content.message_tombstones
                &&& q.content.messages == p.content.messages
                &&& q.jobs == p.jobs
            }
        }),
{
    let prefix = m.workspace_id@ + m.file_id@;
    let known = with_prefix(p.content.files_by_file_id.dom(), prefix);
    lemma_listing_exists(known);
    let all = listing(known);
    if all.len() > 0 {
        assert(all.contains(all[0]));
        assert(known.contains(all[0]));
        assert(p.content.files_by_file_id.contains_key(all[0]));
    } else {
        assert forall|k: Seq<u8>| #[trigger]
            p.content.files_by_file_id.contains_key(k) implies !has_prefix(k, prefix) by {
            if has_prefix(k, prefix) {
                assert(known.contains(k));
                assert(all.contains(k));
            }
        }
    }
    assert(TYPE_SIGNED_FILE_SLICE != TYPE_SIGNED_MESSAGE);
    assert(TYPE_SIGNED_FILE_SLICE != TYPE_SIGNED_REACTION);
    assert(TYPE_SIGNED_FILE_SLICE != TYPE_SIGNED_FILE);
}

/// What a scan does with a file: where its message or the file itself was deleted, it is not found
/// any more, neither by its id, nor by its message, nor by its file id. Otherwise nothing changes.
pub proof fn law_deleted_file_is_found_nowhere(p: Purging, id: EventId, m: FileEvent)
    ensures
        ({
            let q = file_purged(p, id, m);
            let gone = p.content.message_tombstones.contains_key(m.workspace_id@ + m.message_id@)
                || p.store.events.labels.contains(
                (id@, deletion_label_of(LABEL_FILE_DELETED, m.author_user_id)),
            );
            &&& gone ==> {
                &&& !q.content.files.contains_key(m.workspace_id@ + id@)
                &&& !q.content.files_by_message.contains_key(
                    m.workspace_id@ + m.message_id@ + id@,
                )
                &&& !q.content.files_by_file_id.contains_key(m.workspace_id@ + m.file_id@ + id@)
                &&& !q.store.events.events.contains_key(id@)
            }
            &&& !gone ==> q == p
        }),
{
}

/// The tombstone of a deleted message says whose it was and when it was written.
pub proof fn law_tombstone_names_its_message(p: Purging, id: EventId, m: MessageEvent)
    requires
        p.store.events.labels.contains(
            (id@, deletion_label_of(LABEL_MESSAGE_DELETED, m.author_user_id)),
        ),
        !p.content.message_tombstones.contains_key(m.workspace_id@ + id@),
    ensures
        ({
            let q = message_purged(p, id, m);
            let key = m.workspace_id@ + id@;
            &&& q.content.message_tombstones.contains_key(key)
            &&& q.content.message_tombstones[key].workspace_id == m.workspace_id
            &&& q.content.message_tombstones[key].message_id == id
            &&& q.content.message_tombstones[key].author_user_id == m.author_user_id
            &&& q.content.message_tombstones[key].authored_minute == m.created_at_ms / 60_000
        }),
{
}

} // verus!
